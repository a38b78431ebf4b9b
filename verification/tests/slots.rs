use generational_arena::{Arena, Index};

/// Capture the arena's persisted-state listing: one entry per slot,
/// present slots as a (generation, value) pair, absent slots as `None`.
fn snapshot<T: Clone>(arena: &Arena<T>) -> Vec<Option<(u64, T)>> {
    let mut listing = Vec::new();
    for i in 0..arena.capacity() {
        match arena.get_unknown_gen(i) {
            Some((value, idx)) => listing.push(Some((idx.into_raw_parts().1, value.clone()))),
            None => listing.push(None),
        }
    }
    listing
}

#[test]
fn deserialized_arena_holds_same_values_with_original_arena() {
    let mut arena = Arena::new();
    let a = arena.insert("apple");
    let b0 = arena.insert("banana");
    let c = arena.insert("cherry");
    let d = arena.insert("durian");
    assert_eq!(arena.remove(b0), Some("banana"));
    let b1 = arena.insert("bacon");
    assert_eq!(arena.remove(d), Some("durian"));

    let de_arena = Arena::from_slots(snapshot(&arena));

    for arena in &mut [arena, de_arena] {
        assert_eq!(arena.get(a), Some(&"apple"));
        assert_eq!(arena.get(b0), None);
        assert_eq!(arena.get(b1), Some(&"bacon"));
        assert_eq!(arena.get(c), Some(&"cherry"));
        assert_eq!(arena.get(d), None);
    }
}

#[test]
fn deserialized_index_can_be_used_in_the_same_way_as_original_index() {
    let mut arena = Arena::new();
    let a = arena.insert("apple");
    let b0 = arena.insert("banana");
    let c = arena.insert("cherry");
    let d = arena.insert("durian");
    assert_eq!(arena.remove(b0), Some("banana"));
    let b1 = arena.insert("bacon");
    assert_eq!(arena.remove(d), Some("durian"));

    for idx in &[a, b0, b1, c, d] {
        let (slot, generation) = idx.into_raw_parts();
        let de_idx = Index::from_raw_parts(slot, generation);
        assert_eq!(arena.get(*idx), arena.get(de_idx));
    }
}

#[test]
fn sparse_deserialized_arena_can_use_whole_elements_in_free_list() {
    let capacity = 100;
    let len = 3;
    let mut seq: Vec<Option<(u64, &'static str)>> = Vec::new();
    for _ in 0..capacity {
        seq.push(None);
    }
    seq[8] = Some((10, "foo"));
    seq[45] = Some((80, "bar"));
    seq[99] = Some((123, "baz"));

    let mut arena = Arena::from_slots(seq);
    assert_eq!(arena.capacity(), capacity);
    for _i in 0..(capacity - len) {
        arena.insert("quux");
    }
    assert_eq!(arena.capacity(), capacity);
}

#[test]
fn rebuilt_arena_restores_stamps_and_counter() {
    let mut seq: Vec<Option<(u64, &'static str)>> = Vec::new();
    seq.push(None);
    seq.push(Some((7, "seven")));
    seq.push(None);
    seq.push(Some((3, "three")));

    let arena = Arena::from_slots(seq);
    assert_eq!(arena.capacity(), 4);
    assert_eq!(arena.len(), 2);

    let (seven_value, seven_idx) = arena.get_unknown_gen(1).unwrap();
    assert_eq!(*seven_value, "seven");
    assert_eq!(seven_idx.into_raw_parts(), (1, 7));
    let (three_value, three_idx) = arena.get_unknown_gen(3).unwrap();
    assert_eq!(*three_value, "three");
    assert_eq!(three_idx.into_raw_parts(), (3, 3));
    assert!(arena.get_unknown_gen(0).is_none());
    assert!(arena.get_unknown_gen(2).is_none());

    // The counter resumes past the highest stamp: a removal bumps it to
    // eight, so the next occupant of slot one is stamped at least eight.
    let mut arena = arena;
    assert_eq!(arena.remove(seven_idx), Some("seven"));
    let fresh = arena.insert("fresh");
    assert_eq!(fresh.into_raw_parts().1, 8);
    assert!(!arena.contains(seven_idx));
}

#[test]
fn empty_listing_rebuilds_an_empty_arena() {
    let seq: Vec<Option<(u64, u32)>> = Vec::new();
    let arena = Arena::from_slots(seq);
    assert_eq!(arena.capacity(), 0);
    assert_eq!(arena.len(), 0);
}

#[test]
fn empty_arena_can_be_serialized_and_deserialized() {
    let arena = Arena::<u32>::new();
    let cap = arena.capacity();
    let listing = snapshot(&arena);
    assert_eq!(listing.len(), cap);
    assert!(listing.iter().all(|slot| slot.is_none()));

    let de_arena = Arena::from_slots(listing);
    assert_eq!(de_arena.capacity(), cap);
    assert_eq!(de_arena.len(), 0);
}

#[test]
fn fully_occupied_arena_can_be_serialized_and_deserialized() {
    let mut arena = Arena::with_capacity(30);
    for i in 0..arena.capacity() {
        let _ = arena.insert(i * i);
    }
    let listing = snapshot(&arena);
    assert_eq!(listing.len(), 30);
    for (i, slot) in listing.iter().enumerate() {
        assert_eq!(*slot, Some((0, i * i)));
    }

    let de_arena = Arena::from_slots(listing);
    assert_eq!(de_arena.len(), 30);
    for i in 0..30 {
        let (value, _) = de_arena.get_unknown_gen(i).unwrap();
        assert_eq!(*value, i * i);
    }
}
