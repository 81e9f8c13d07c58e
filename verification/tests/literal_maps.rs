use lute::{FrozenMap, FrozenSet, Key};

fn planets() -> FrozenMap<i32> {
    FrozenMap::from_vec(
        [("Mercury", 1), ("Venus", 2), ("Earth", 3), ("Mars", 4)]
            .into_iter()
            .map(|(k, v)| (Key::Str(k.to_owned()), v))
            .collect(),
    )
}

#[test]
fn map_str_keys() {
    let planets = planets();
    assert_eq!(planets.len(), 4);
    assert_eq!(planets.get(&Key::Str("Earth".to_owned())), Some(&3));
    assert_eq!(*planets.index(&Key::Str("Mars".to_owned())), 4);
    assert_eq!(planets.get(&Key::Str("Pluto".to_owned())), None);
}

#[test]
fn map_int_keys() {
    let codes = FrozenMap::from_vec(vec![
        (Key::U32(200), "ok"),
        (Key::U32(404), "not found"),
        (Key::U32(500), "error"),
    ]);
    assert_eq!(codes.get(&Key::U32(404)), Some(&"not found"));
    assert_eq!(codes.get(&Key::U32(200)), Some(&"ok"));
    assert_eq!(codes.get(&Key::U32(418)), None);
}

#[test]
fn map_negative_keys() {
    let offsets = FrozenMap::from_vec(vec![
        (Key::I32(-1), "before"),
        (Key::I32(0), "here"),
        (Key::I32(1), "after"),
    ]);
    assert_eq!(offsets.get(&Key::I32(-1)), Some(&"before"));
    assert_eq!(offsets.get(&Key::I32(0)), Some(&"here"));
    assert_eq!(offsets.get(&Key::I32(1)), Some(&"after"));
    assert_eq!(offsets.get(&Key::I32(2)), None);
}

#[test]
fn map_bool_keys() {
    let flags = FrozenMap::from_vec(vec![(Key::Bool(true), "yes"), (Key::Bool(false), "no")]);
    assert_eq!(*flags.index(&Key::Bool(true)), "yes");
    assert_eq!(*flags.index(&Key::Bool(false)), "no");
}

#[test]
fn set_char_elements() {
    let vowels = FrozenSet::from_vec(['a', 'e', 'i', 'o', 'u'].into_iter().map(Key::Char).collect());
    assert_eq!(vowels.len(), 5);
    assert!(vowels.contains(&Key::Char('e')));
    assert!(!vowels.contains(&Key::Char('z')));
}

#[test]
fn set_int_elements() {
    let primes = FrozenSet::from_vec([2u64, 3, 5, 7, 11, 13].into_iter().map(Key::U64).collect());
    assert!(primes.contains(&Key::U64(7)));
    assert!(!primes.contains(&Key::U64(8)));
}

#[test]
fn map_many_entries() {
    let many = FrozenMap::from_vec((0u32..20).map(|k| (Key::U32(k), k * 10)).collect());
    for k in 0u32..20 {
        assert_eq!(many.get(&Key::U32(k)), Some(&(k * 10)));
    }
    assert_eq!(many.get(&Key::U32(20)), None);
}

#[test]
fn map_extreme_int_keys() {
    let extremes = FrozenMap::from_vec(vec![
        (Key::I32(i32::MIN), "min"),
        (Key::I32(0), "zero"),
        (Key::I32(i32::MAX), "max"),
    ]);
    assert_eq!(extremes.get(&Key::I32(i32::MIN)), Some(&"min"));
    assert_eq!(extremes.get(&Key::I32(i32::MAX)), Some(&"max"));
    assert_eq!(extremes.get(&Key::I32(0)), Some(&"zero"));
    assert_eq!(extremes.get(&Key::I32(1)), None);
}

#[test]
fn keys_of_every_integer_width_and_byte_strings() {
    let map = FrozenMap::from_vec(vec![
        (Key::I8(-8), 1),
        (Key::I16(-16), 2),
        (Key::I64(-64), 3),
        (Key::U128(u128::MAX), 4),
        (Key::Usize(usize::MAX), 5),
        (Key::Bytes(b"raw".to_vec()), 6),
        (Key::Bytes(Vec::new()), 7),
    ]);
    assert_eq!(map.len(), 7);
    assert_eq!(map.get(&Key::I8(-8)), Some(&1));
    assert_eq!(map.get(&Key::I16(-16)), Some(&2));
    assert_eq!(map.get(&Key::I64(-64)), Some(&3));
    assert_eq!(map.get(&Key::U128(u128::MAX)), Some(&4));
    assert_eq!(map.get(&Key::Usize(usize::MAX)), Some(&5));
    assert_eq!(map.get(&Key::Bytes(b"raw".to_vec())), Some(&6));
    assert_eq!(map.get(&Key::Bytes(Vec::new())), Some(&7));
    assert_eq!(map.get(&Key::Bytes(b"ra".to_vec())), None);
    assert_eq!(map.get(&Key::I64(64)), None);
}
