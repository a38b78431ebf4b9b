use generational_arena::{TypedArena, TypedIndex, TypedIndex2};

struct Star {
    brightness: u32,
}

struct Planet {
    mass: u32,
}

#[test]
fn typed_arena_round_trip() {
    let mut stars: TypedArena<Star> = TypedArena::new();
    let sun = stars.insert(Star { brightness: 100 });
    assert!(stars.contains(sun));
    assert_eq!(stars.get(sun).unwrap().brightness, 100);
    assert_eq!(stars.len(), 1);

    stars.get_mut(sun).unwrap().brightness = 200;
    assert_eq!(stars.get(sun).unwrap().brightness, 200);

    let removed = stars.remove(sun).unwrap();
    assert_eq!(removed.brightness, 200);
    assert!(!stars.contains(sun));
    assert!(stars.get(sun).is_none());
    assert_eq!(stars.len(), 0);
}

#[test]
fn typed_try_insert_respects_capacity() {
    let mut stars: TypedArena<u32> = TypedArena::with_capacity(1);
    let first = stars.try_insert(1).ok().unwrap();
    assert_eq!(stars.try_insert(2).err(), Some(2));
    assert_eq!(stars.remove(first), Some(1));
    assert!(stars.try_insert(3).is_ok());
}

#[test]
fn typed_try_insert_with_hands_closure_back() {
    let mut arena: TypedArena<u32> = TypedArena::with_capacity(1);
    let first = arena.try_insert_with(|_| 41).ok().unwrap();
    let returned = arena.try_insert_with(|_| 41).err().unwrap();
    assert_eq!(returned(first), 41);
}

#[test]
fn typed_insert_with_sees_own_handle() {
    let mut arena: TypedArena<(u32, usize)> = TypedArena::new();
    let h = arena.insert_with(|idx| (9, idx.index()));
    assert_eq!(arena.get(h).unwrap().0, 9);
    assert_eq!(arena.get(h).unwrap().1, h.index());
}

#[test]
fn typed_handles_decompose_and_rebuild() {
    let mut arena: TypedArena<u8> = TypedArena::new();
    let h = arena.insert(5);
    let (slot, generation) = h.into_raw_parts();
    let rebuilt: TypedIndex<u8> = TypedIndex::from_raw_parts(slot, generation);
    assert!(rebuilt == h);
    assert_eq!(rebuilt.index(), slot);
    assert_eq!(rebuilt.generation(), generation);
    assert_eq!(arena.get(rebuilt).cloned(), Some(5));
    assert_eq!(h.inner().into_raw_parts(), (slot, generation));
}

#[test]
fn typed_retain_and_clear() {
    let mut arena: TypedArena<u32> = TypedArena::with_capacity(4);
    let keep = arena.insert(1);
    let toss = arena.insert(10);
    arena.insert(2);
    arena.insert(20);
    arena.retain(|_, v| *v < 10);
    assert_eq!(arena.len(), 2);
    assert!(arena.contains(keep));
    assert!(!arena.contains(toss));

    arena.clear();
    assert_eq!(arena.len(), 0);
    assert!(!arena.contains(keep));
    assert_eq!(arena.capacity(), 4);
}

#[test]
fn typed_iterators_visit_every_element() {
    let mut arena: TypedArena<u32> = TypedArena::with_capacity(3);
    let a = arena.insert(1);
    let b = arena.insert(2);
    let c = arena.insert(3);

    let mut seen = Vec::new();
    let mut iter = arena.iter();
    assert_eq!(iter.len(), 3);
    while let Some((idx, v)) = iter.next() {
        seen.push((idx, *v));
    }
    assert_eq!(seen.len(), 3);
    assert!(seen[0].0 == a && seen[0].1 == 1);
    assert!(seen[1].0 == b && seen[1].1 == 2);
    assert!(seen[2].0 == c && seen[2].1 == 3);

    {
        let mut iter = arena.iter_mut();
        while let Some((_, v)) = iter.next() {
            *v *= 2;
        }
    }
    assert_eq!(arena.get(b).cloned(), Some(4));
}

#[test]
fn typed_unknown_gen_lookups() {
    let mut arena: TypedArena<u32> = TypedArena::new();
    let h = arena.insert(11);
    let (idx, v) = arena.get_unknown_gen(h.index()).unwrap();
    assert!(idx == h);
    assert_eq!(*v, 11);
    {
        let (_, v) = arena.get_unknown_gen_mut(h.index()).unwrap();
        *v = 12;
    }
    assert_eq!(arena.get(h).cloned(), Some(12));
    arena.remove(h);
    assert!(arena.get_unknown_gen(h.index()).is_none());
}

#[test]
fn typed_reserve_and_capacity() {
    let mut arena: TypedArena<u32> = TypedArena::with_capacity(2);
    assert_eq!(arena.capacity(), 2);
    arena.reserve(3);
    assert_eq!(arena.capacity(), 5);
}

#[test]
fn typed_raw_load_places_values() {
    let pairs: Vec<(TypedIndex<&'static str>, &'static str)> = vec![
        (TypedIndex::from_raw_parts(2, 5), "two"),
        (TypedIndex::from_raw_parts(0, 9), "zero"),
    ];
    let arena = TypedArena::raw_load(4, pairs);
    assert_eq!(arena.capacity(), 4);
    let (h0, v0) = arena.get_unknown_gen(0).unwrap();
    assert_eq!((*v0, h0.generation()), ("zero", 9));
    let (h2, v2) = arena.get_unknown_gen(2).unwrap();
    assert_eq!((*v2, h2.generation()), ("two", 5));
    assert!(arena.get_unknown_gen(1).is_none());
    assert!(arena.get_unknown_gen(3).is_none());
}

#[test]
fn typed_index_pairs() {
    let mut stars: TypedArena<Star> = TypedArena::new();
    let mut planets: TypedArena<Planet> = TypedArena::new();
    let sun = stars.insert(Star { brightness: 3 });
    let earth = planets.insert(Planet { mass: 7 });
    let pair = TypedIndex2::new(sun, earth);
    assert!(pair.fst() == sun);
    assert!(pair.snd() == earth);
    let copied = pair;
    assert!(copied == pair);
    assert_eq!(stars.get(pair.fst()).unwrap().brightness, 3);
    assert_eq!(planets.get(pair.snd()).unwrap().mass, 7);
}
