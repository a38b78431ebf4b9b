use generational_arena::Arena;

#[test]
fn inserted_handles_are_contained() {
    let mut arena = Arena::new();
    let mut handles = Vec::new();
    for i in 0..20 {
        let h = arena.insert(i);
        assert!(arena.contains(h));
        handles.push(h);
    }
    for h in &handles {
        assert!(arena.contains(*h));
    }
}

#[test]
fn removed_handle_stays_invalid() {
    let mut arena = Arena::with_capacity(2);
    let a = arena.insert("a");
    let b = arena.insert("b");
    assert_eq!(arena.remove(a), Some("a"));
    assert!(!arena.contains(a));

    // Reusing the slot does not resurrect the old handle.
    let c = arena.insert("c");
    assert_eq!(c.into_raw_parts().0, a.into_raw_parts().0);
    assert!(!arena.contains(a));
    assert!(arena.contains(b));
    assert!(arena.contains(c));

    // Growing, shrinking and clearing do not resurrect it either.
    arena.reserve(4);
    assert!(!arena.contains(a));
    arena.shrink_to_fit();
    assert!(!arena.contains(a));
    arena.clear();
    assert!(!arena.contains(a));
    let later = arena.insert("later");
    assert!(!arena.contains(a));
    assert!(arena.contains(later));
}

#[test]
fn reinserted_handles_are_fresh() {
    let mut arena = Arena::with_capacity(3);
    let old: Vec<_> = (0..3).map(|i| arena.insert(i)).collect();
    for h in &old {
        assert!(arena.remove(*h).is_some());
    }
    let new: Vec<_> = (10..13).map(|i| arena.insert(i)).collect();
    for h_new in &new {
        for h_old in &old {
            assert!(h_new != h_old);
        }
    }
    for h_old in &old {
        assert!(!arena.contains(*h_old));
    }
    for h_new in &new {
        assert!(arena.contains(*h_new));
    }
}

#[test]
fn retain_true_keeps_everything() {
    let mut arena = Arena::with_capacity(4);
    let handles: Vec<_> = (0..4).map(|i| arena.insert(i * 7)).collect();
    arena.retain(|_, _| true);
    assert_eq!(arena.len(), 4);
    for (i, h) in handles.iter().enumerate() {
        assert_eq!(arena.get(*h), Some(&(i * 7)));
    }
}

#[test]
fn retain_false_empties() {
    let mut arena = Arena::with_capacity(4);
    let handles: Vec<_> = (0..4).map(|i| arena.insert(i)).collect();
    arena.retain(|_, _| false);
    assert_eq!(arena.len(), 0);
    for h in &handles {
        assert!(!arena.contains(*h));
    }
}

#[test]
fn get2_mut_prefers_newer_generation() {
    let mut arena = Arena::with_capacity(1);
    let old = arena.insert(1);
    arena.remove(old);
    let new = arena.insert(2);

    let (a, b) = arena.get2_mut(old, new);
    assert_eq!(a, None);
    assert_eq!(b, Some(&mut 2));

    let (c, d) = arena.get2_mut(new, old);
    assert_eq!(c, Some(&mut 2));
    assert_eq!(d, None);
}

#[test]
fn get2_mut_distinct_slots_write_independently() {
    let mut arena = Arena::with_capacity(2);
    let h1 = arena.insert(0);
    let h2 = arena.insert(1);
    {
        let (a, b) = arena.get2_mut(h1, h2);
        *a.unwrap() = 3;
        *b.unwrap() = 4;
    }
    assert_eq!(arena.get(h1), Some(&3));
    assert_eq!(arena.get(h2), Some(&4));
}

#[test]
fn drain_abandoned_still_empties() {
    let mut arena = Arena::new();
    let a = arena.insert(1);
    let b = arena.insert(2);
    let c = arena.insert(3);
    {
        let mut drain = arena.drain();
        let first = drain.next();
        assert!(first.is_some());
        // Dropped here with two entries unconsumed.
    }
    assert_eq!(arena.len(), 0);
    assert!(!arena.contains(a));
    assert!(!arena.contains(b));
    assert!(!arena.contains(c));
}

#[test]
fn capacity_one_insert_remove_reinsert() {
    let mut arena = Arena::with_capacity(1);
    let a = arena.try_insert(42).unwrap();
    assert_eq!(arena.try_insert(43), Err(43));
    assert_eq!(arena.remove(a), Some(42));
    let b = arena.try_insert(43).unwrap();
    assert_eq!(b.into_raw_parts().0, a.into_raw_parts().0);
    assert!(b != a);
    assert_eq!(arena.get(a), None);
    assert_eq!(arena.get(b), Some(&43));
}

#[test]
fn thousand_inserts_come_back_in_order() {
    let mut arena = Arena::new();
    let handles: Vec<_> = (0..1000).map(|i| arena.insert(i)).collect();
    let mut removed = Vec::new();
    for h in &handles {
        removed.push(arena.remove(*h).unwrap());
    }
    let expected: Vec<_> = (0..1000).collect();
    assert_eq!(removed, expected);
    assert!(arena.is_empty());
}

#[test]
fn with_capacity_zero_normalizes_to_one() {
    let arena: Arena<u8> = Arena::with_capacity(0);
    assert_eq!(arena.capacity(), 1);
    assert!(arena.is_empty());
}

#[test]
fn new_arena_has_default_capacity() {
    let arena: Arena<u8> = Arena::new();
    assert_eq!(arena.capacity(), 4);
    assert_eq!(arena.len(), 0);
}

#[test]
fn shrink_to_fit_truncates_to_last_occupied() {
    let mut arena = Arena::with_capacity(8);
    let a = arena.insert(1);
    let b = arena.insert(2);
    let c = arena.insert(3);
    arena.shrink_to_fit();
    assert_eq!(arena.capacity(), 3);
    assert_eq!(arena.get(a), Some(&1));
    assert_eq!(arena.get(b), Some(&2));
    assert_eq!(arena.get(c), Some(&3));

    arena.remove(c);
    arena.remove(a);
    arena.shrink_to_fit();
    assert_eq!(arena.capacity(), 2);
    assert_eq!(arena.get(b), Some(&2));

    arena.remove(b);
    arena.shrink_to_fit();
    assert_eq!(arena.capacity(), 0);

    // An empty arena grows again from nothing.
    let d = arena.insert(9);
    assert_eq!(arena.get(d), Some(&9));
    assert_eq!(arena.capacity(), 1);
}

#[test]
fn iterators_walk_slots_in_order_and_in_reverse() {
    let mut arena = Arena::with_capacity(4);
    let a = arena.insert(10);
    let b = arena.insert(20);
    let c = arena.insert(30);
    arena.remove(b);

    let mut iter = arena.iter();
    assert_eq!(iter.len(), 2);
    assert_eq!(iter.size_hint(), (2, Some(2)));
    let first = iter.next().unwrap();
    assert_eq!((first.0, *first.1), (a, 10));
    let second = iter.next().unwrap();
    assert_eq!((second.0, *second.1), (c, 30));
    assert!(iter.next().is_none());
    assert!(iter.next().is_none());

    let mut rev = arena.iter();
    let back = rev.next_back().unwrap();
    assert_eq!((back.0, *back.1), (c, 30));
    let front = rev.next().unwrap();
    assert_eq!((front.0, *front.1), (a, 10));
    assert!(rev.next_back().is_none());
}

#[test]
fn iter_mut_updates_values() {
    let mut arena = Arena::new();
    let handles: Vec<_> = (0..6).map(|i| arena.insert(i)).collect();
    {
        let mut iter = arena.iter_mut();
        while let Some((_, value)) = iter.next() {
            *value += 5;
        }
    }
    for (i, h) in handles.iter().enumerate() {
        assert_eq!(arena.get(*h), Some(&(i + 5)));
    }
}

#[test]
fn iter_mut_walks_backwards_too() {
    let mut arena = Arena::with_capacity(2);
    let a = arena.insert(1);
    let b = arena.insert(2);
    {
        let mut iter = arena.iter_mut();
        let (idx, value) = iter.next_back().unwrap();
        assert_eq!(idx, b);
        *value = 20;
        let (idx, value) = iter.next_back().unwrap();
        assert_eq!(idx, a);
        *value = 10;
        assert!(iter.next_back().is_none());
    }
    assert_eq!(arena.get(a), Some(&10));
    assert_eq!(arena.get(b), Some(&20));
}

#[test]
fn into_iter_walks_backwards_too() {
    let mut arena = Arena::new();
    arena.insert(1);
    arena.insert(2);
    arena.insert(3);
    let mut iter = arena.into_iter();
    assert_eq!(iter.len(), 3);
    assert_eq!(iter.next_back(), Some(3));
    assert_eq!(iter.next(), Some(1));
    assert_eq!(iter.next_back(), Some(2));
    assert_eq!(iter.next(), None);
    assert_eq!(iter.next_back(), None);
}

#[test]
fn drain_yields_pairs_backwards_too() {
    let mut arena = Arena::with_capacity(2);
    let a = arena.insert("x");
    let b = arena.insert("y");
    let mut drain = arena.drain();
    assert_eq!(drain.size_hint(), (2, Some(2)));
    assert_eq!(drain.next_back(), Some((b, "y")));
    assert_eq!(drain.next(), Some((a, "x")));
    assert_eq!(drain.next(), None);
    assert!(arena.is_empty());
}
