use lute::{BuildError, FrozenMap, Key, MAX_LEN};

fn u8_map<V: 'static>(entries: Vec<(u8, V)>) -> FrozenMap<V> {
    FrozenMap::from_vec(entries.into_iter().map(|(k, v)| (Key::U8(k), v)).collect())
}

#[test]
fn map_empty() {
    let map: FrozenMap<()> = FrozenMap::from_vec(Vec::new());

    assert!(map.eq(&FrozenMap::default()));

    assert_eq!(map.len(), 0);
    assert!(map.is_empty());

    for key in u8::MIN..=u8::MAX {
        let key = Key::U8(key);
        assert_eq!(map.get_entry(&key), None);
        assert_eq!(map.get(&key), None);
        assert!(!map.contains_key(&key));
    }
}

#[test]
fn map_single() {
    let map = u8_map(vec![(u8::MAX, "foo")]);

    assert_eq!(map.len(), 1);
    assert!(!map.is_empty());

    for key in u8::MIN..u8::MAX {
        let key = Key::U8(key);
        assert_eq!(map.get_entry(&key), None);
        assert_eq!(map.get(&key), None);
        assert!(!map.contains_key(&key));
    }

    let max = Key::U8(u8::MAX);
    assert_eq!(map.get_entry(&max), Some((&max, &"foo")));
    assert_eq!(map.get(&max), Some(&"foo"));
    assert_eq!(*map.index(&max), "foo");
    assert!(map.contains_key(&max));
}

#[test]
fn map_multiple() {
    let entries = vec![(1u8, "foo"), (3, "bar"), (9, "baz")];
    let keys: std::collections::HashSet<u8> = entries.iter().map(|&(k, _)| k).collect();

    let map = u8_map(entries);

    assert_eq!(map.len(), 3);
    assert!(!map.is_empty());

    for key in u8::MIN..=u8::MAX {
        if !keys.contains(&key) {
            let key = Key::U8(key);
            assert_eq!(map.get_entry(&key), None);
            assert_eq!(map.get(&key), None);
            assert!(!map.contains_key(&key));
        }
    }

    for (k, v) in [(1u8, "foo"), (3, "bar"), (9, "baz")] {
        let key = Key::U8(k);
        assert_eq!(map.get_entry(&key), Some((&key, &v)));
        assert_eq!(map.get(&key), Some(&v));
        assert_eq!(*map.index(&key), v);
        assert!(map.contains_key(&key));
    }
}

fn as_u8(key: &Key) -> u8 {
    match key {
        Key::U8(k) => *k,
        other => panic!("expected a u8 key, got {other:?}"),
    }
}

#[test]
fn map_iterators() {
    let map = u8_map(vec![(1u8, "a"), (2, "b"), (3, "c")]);

    assert_eq!(map.entries().len(), 3);

    let mut keys = Vec::new();
    let mut it = map.keys();
    while let Some(k) = it.next() {
        keys.push(as_u8(k));
    }
    keys.sort_unstable();
    assert_eq!(keys, [1, 2, 3]);

    let mut values = Vec::new();
    let mut it = map.values();
    while let Some(v) = it.next() {
        values.push(*v);
    }
    values.sort_unstable();
    assert_eq!(values, ["a", "b", "c"]);

    let mut entries = Vec::new();
    let mut it = map.entries();
    while let Some((k, v)) = it.next() {
        entries.push((as_u8(k), *v));
    }
    entries.sort_unstable();
    assert_eq!(entries, [(1, "a"), (2, "b"), (3, "c")]);

    let mut by_ref = Vec::new();
    let mut it = map.entries();
    while let Some((k, v)) = it.next() {
        by_ref.push((as_u8(k), *v));
    }
    by_ref.sort_unstable();
    assert_eq!(by_ref, entries);
}

#[test]
fn map_equality() {
    let a = u8_map(vec![(1u8, "x"), (2, "y")]);
    let b = u8_map(vec![(2u8, "y"), (1, "x")]);
    let differs_value = u8_map(vec![(1u8, "x"), (2, "z")]);
    let differs_key = u8_map(vec![(1u8, "x"), (9, "y")]);

    assert!(a.eq(&b));
    assert!(b.eq(&a));
    assert!(!a.eq(&differs_value));
    assert!(!a.eq(&differs_key));
}

#[test]
fn map_borrow_str_lookup() {
    let map: FrozenMap<i32> = FrozenMap::from_vec(
        [("alpha", 1), ("beta", 2)]
            .into_iter()
            .map(|(k, v)| (Key::Str(k.to_owned()), v))
            .collect(),
    );

    let alpha = Key::Str("alpha".to_owned());
    let beta = Key::Str("beta".to_owned());
    assert_eq!(map.get(&alpha), Some(&1));
    assert_eq!(*map.index(&alpha), 1);
    assert_eq!(map.get(&beta), Some(&2));
    assert_eq!(*map.index(&beta), 2);
    assert_eq!(map.get(&Key::Str("gamma".to_owned())), None);
}

#[test]
fn duplicate_key_rejected() {
    let r = FrozenMap::try_from_vec(vec![(Key::U8(u8::MAX), "foo"), (Key::U8(u8::MAX), "bar")]);
    assert_eq!(r.err(), Some(BuildError::DuplicateKey));
}

#[test]
fn duplicate_key_rejected_among_many() {
    let mut entries: Vec<(Key, u32)> = (0u32..40).map(|k| (Key::U32(k), k)).collect();
    entries.push((Key::U32(17), 99));
    let r = FrozenMap::try_from_vec(entries);
    assert_eq!(r.err(), Some(BuildError::DuplicateKey));
}

#[test]
fn too_many_entries_rejected() {
    let n = u32::try_from(MAX_LEN).unwrap();
    let entries: Vec<(Key, ())> = (0..=n).map(|k| (Key::U32(k), ())).collect();
    let r = FrozenMap::try_from_vec(entries);
    assert_eq!(r.err(), Some(BuildError::TooManyEntries));
}

#[test]
fn keys_of_one_kind_in_several_maps() {
    let map = FrozenMap::from_vec(vec![
        (Key::Char('a'), 1u8),
        (Key::Char('b'), 2),
        (Key::Char('c'), 3),
    ]);
    assert_eq!(map.len(), 3);
    assert_eq!(map.get(&Key::Char('b')), Some(&2));
    assert_eq!(map.get(&Key::Char('d')), None);
}

#[test]
fn same_bits_of_different_kinds_are_indistinguishable() {
    // A `u32` and an `i32` with the same bits feed the hasher the same bytes.
    let r = FrozenMap::try_from_vec(vec![(Key::U32(1), 'a'), (Key::I32(1), 'b')]);
    assert_eq!(r.err(), Some(BuildError::Indistinguishable));
}

#[test]
fn default_map_is_empty() {
    let map: FrozenMap<u8> = FrozenMap::default();
    assert!(map.is_empty());
    assert_eq!(map.get(&Key::Bool(false)), None);
    assert!(map.pilots().is_empty());
}

#[test]
fn baked_parts_round_trip() {
    let built = FrozenMap::from_vec((0u32..100).map(|k| (Key::U32(k), k * 3)).collect());
    let entries: &'static [(Key, u32)] = Vec::leak(built.as_slice().to_vec());
    let pilots: &'static [u16] = Vec::leak(built.pilots().to_vec());
    let remap: &'static [u16] = Vec::leak(built.remap().to_vec());

    let baked = FrozenMap::from_baked_parts_checked(built.seed(), pilots, remap, entries).unwrap();
    for k in 0u32..100 {
        assert_eq!(baked.get(&Key::U32(k)), Some(&(k * 3)));
    }
    assert_eq!(baked.get(&Key::U32(100)), None);
    assert!(baked.eq(&built));

    // A different seed sends the keys elsewhere.
    assert!(FrozenMap::from_baked_parts_checked(built.seed() ^ 1, pilots, remap, entries).is_none());
    // Tables of the wrong shape are refused.
    assert!(FrozenMap::from_baked_parts_checked(built.seed(), &pilots[1..], remap, entries).is_none());
    assert!(FrozenMap::from_baked_parts_checked(built.seed(), pilots, &remap[1..], entries).is_none());
}

#[test]
fn baked_remap_value_out_of_range() {
    let entries: &'static [(Key, u16)] =
        Vec::leak(vec![(Key::U16(0), 0), (Key::U16(1), 0), (Key::U16(2), 0), (Key::U16(3), 0)]);
    assert!(FrozenMap::from_baked_parts_checked(0, &[0, 0], &[4], entries).is_none());
}

#[test]
fn baked_single_entry_needs_no_tables() {
    let entries: &'static [(Key, u16)] = Vec::leak(vec![(Key::U16(7), 70)]);
    let map = FrozenMap::from_baked_parts_checked(12345, &[], &[], entries).unwrap();
    assert_eq!(map.get(&Key::U16(7)), Some(&70));
    assert_eq!(map.get(&Key::U16(8)), None);
}

#[test]
fn iterators_from_both_ends() {
    let map = u8_map(vec![(1u8, 10u32), (2, 20), (3, 30), (4, 40)]);
    let mut it = map.entries();
    let mut seen = Vec::new();
    let (k, v) = it.next_back().unwrap();
    seen.push((as_u8(k), *v));
    let (k, v) = it.next().unwrap();
    seen.push((as_u8(k), *v));
    assert_eq!(it.len(), 2);
    while let Some((k, v)) = it.next_back() {
        seen.push((as_u8(k), *v));
    }
    assert_eq!(it.len(), 0);
    assert!(it.next().is_none());
    seen.sort_unstable();
    assert_eq!(seen, [(1, 10), (2, 20), (3, 30), (4, 40)]);

    // Front and back walks meet: forwards and backwards give the same order reversed.
    let mut forwards = Vec::new();
    let mut it = map.keys();
    while let Some(k) = it.next() {
        forwards.push(as_u8(k));
    }
    let mut backwards = Vec::new();
    let mut it = map.keys();
    while let Some(k) = it.next_back() {
        backwards.push(as_u8(k));
    }
    backwards.reverse();
    assert_eq!(forwards, backwards);

    let mut values = Vec::new();
    let mut it = map.values();
    while let Some(v) = it.next_back() {
        values.push(*v);
    }
    values.sort_unstable();
    assert_eq!(values, [10, 20, 30, 40]);
}

#[test]
fn cloned_map_finds_the_same_entries() {
    let map = FrozenMap::from_vec((0u32..30).map(|k| (Key::Str(format!("k{k}")), vec![k; 2])).collect());
    let copy = map.clone();
    assert_eq!(copy.len(), 30);
    assert_eq!(copy.seed(), map.seed());
    assert_eq!(copy.pilots(), map.pilots());
    for k in 0u32..30 {
        assert_eq!(copy.get(&Key::Str(format!("k{k}"))), Some(&vec![k; 2]));
    }
    assert!(copy.eq(&map));
}

#[test]
fn try_from_vec_builds_what_from_vec_builds() {
    let entries: Vec<(Key, u32)> = (0u32..50).map(|k| (Key::U32(k), k + 1)).collect();
    let tried = FrozenMap::try_from_vec(entries.clone()).expect("distinct keys build");
    let built = FrozenMap::from_vec(entries);
    assert_eq!(tried.len(), 50);
    assert!(tried.eq(&built));
    assert_eq!(tried.get(&Key::U32(49)), Some(&50));
    assert_eq!(tried.get(&Key::U32(50)), None);
}

#[test]
#[should_panic = "duplicate key present"]
fn panic_duplicate_key() {
    drop(FrozenMap::from_vec(vec![(Key::U8(u8::MAX), "foo"), (Key::U8(u8::MAX), "bar")]));
}

#[test]
#[should_panic = "no entry found for key"]
fn map_panic_index() {
    let map = u8_map(vec![(u8::MAX, "foo")]);
    let _ = map.index(&Key::U8(0));
}

#[test]
fn build_error_messages() {
    assert_eq!(BuildError::TooManyEntries.message(), "cannot have more than 65535 entries");
    assert_eq!(BuildError::DuplicateKey.message(), "duplicate key present");
    assert_eq!(
        BuildError::Indistinguishable.message(),
        "could not find a perfect hash function for the given keys; two distinct keys hash identically under every seed (is `Hash` consistent with `Eq`?)"
    );
    assert_eq!(
        BuildError::Exhausted.message(),
        "could not find a perfect hash function for the given keys after 256 attempts"
    );
}

#[test]
fn equality_of_string_and_vector_values() {
    let a = FrozenMap::from_vec(vec![(Key::U8(1), String::from("x")), (Key::U8(2), String::from("y"))]);
    let b = FrozenMap::from_vec(vec![(Key::U8(2), String::from("y")), (Key::U8(1), String::from("x"))]);
    let c = FrozenMap::from_vec(vec![(Key::U8(2), String::from("z")), (Key::U8(1), String::from("x"))]);
    assert!(a.eq(&b));
    assert!(!a.eq(&c));
    let v = FrozenMap::from_vec(vec![(Key::U8(1), vec![1u32, 2])]);
    let w = FrozenMap::from_vec(vec![(Key::U8(1), vec![1u32, 2, 3])]);
    assert!(v.eq(&v.clone()));
    assert!(!v.eq(&w));
}

#[test]
fn iterators_skip_and_count() {
    let map = u8_map(vec![(1, "a"), (2, "b"), (3, "c"), (4, "d")]);
    let listed: Vec<(&Key, &&str)> = {
        let mut it = map.entries();
        let mut v = Vec::new();
        while let Some(e) = it.next() {
            v.push(e);
        }
        v
    };
    let mut it = map.entries();
    assert_eq!(it.nth(1), Some(listed[1]));
    assert_eq!(it.len(), 2);
    assert_eq!(it.nth(5), None);
    assert_eq!(it.len(), 0);
    assert_eq!(map.entries().last(), Some(listed[3]));
    assert_eq!(map.entries().count(), 4);
    assert_eq!(map.keys().nth(2), Some(listed[2].0));
    assert_eq!(map.keys().last(), Some(listed[3].0));
    assert_eq!(map.keys().count(), 4);
    assert_eq!(map.values().nth(0), Some(listed[0].1));
    assert_eq!(map.values().last(), Some(listed[3].1));
    assert_eq!(map.values().count(), 4);
    let empty: lute::FrozenMap<u8> = lute::FrozenMap::default();
    assert_eq!(empty.entries().last(), None);
    assert_eq!(empty.values().count(), 0);
}
