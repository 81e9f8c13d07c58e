use lute::{BuildError, FrozenSet, Key};

fn u8_set(values: Vec<u8>) -> FrozenSet {
    FrozenSet::from_vec(values.into_iter().map(Key::U8).collect())
}

#[test]
fn set_empty() {
    let set = FrozenSet::from_vec(Vec::new());

    assert!(set.eq(&FrozenSet::default()));

    assert_eq!(set.len(), 0);
    assert!(set.is_empty());

    for value in u8::MIN..=u8::MAX {
        let value = Key::U8(value);
        assert!(set.get(&value).is_none());
        assert!(!set.contains(&value));
    }
}

#[test]
fn set_single() {
    let set = u8_set(vec![u8::MAX]);

    assert_eq!(set.len(), 1);
    assert!(!set.is_empty());

    for value in u8::MIN..u8::MAX {
        let value = Key::U8(value);
        assert!(set.get(&value).is_none());
        assert!(!set.contains(&value));
    }

    let max = Key::U8(u8::MAX);
    assert_eq!(set.get(&max), Some(&max));
    assert!(set.contains(&max));
}

#[test]
fn set_multiple() {
    let values: Vec<u8> = vec![1, 3, 9];
    let present: std::collections::HashSet<u8> = values.iter().copied().collect();

    let set = u8_set(values);

    assert_eq!(set.len(), 3);
    assert!(!set.is_empty());

    for value in u8::MIN..=u8::MAX {
        let key = Key::U8(value);
        if present.contains(&value) {
            assert_eq!(set.get(&key), Some(&key));
            assert!(set.contains(&key));
        } else {
            assert!(set.get(&key).is_none());
            assert!(!set.contains(&key));
        }
    }
}

#[test]
fn set_iterators() {
    let set = u8_set(vec![1, 2, 3]);

    assert_eq!(set.entries().len(), 3);

    let mut values = Vec::new();
    let mut it = set.entries();
    while let Some(v) = it.next() {
        match v {
            Key::U8(x) => values.push(*x),
            other => panic!("unexpected value {other:?}"),
        }
    }
    values.sort_unstable();
    assert_eq!(values, [1, 2, 3]);

    let mut by_ref = Vec::new();
    let mut it = set.entries();
    while let Some(v) = it.next() {
        match v {
            Key::U8(x) => by_ref.push(*x),
            other => panic!("unexpected value {other:?}"),
        }
    }
    by_ref.sort_unstable();
    assert_eq!(by_ref, values);
}

#[test]
fn set_equality() {
    let a = u8_set(vec![1, 2, 3]);
    let b = u8_set(vec![3, 2, 1]);
    let differs = u8_set(vec![1, 2, 4]);

    assert!(a.eq(&b));
    assert!(!a.eq(&differs));
}

#[test]
fn set_borrow_str_lookup() {
    let set = FrozenSet::from_vec(
        ["alpha", "beta"].into_iter().map(|s| Key::Str(s.to_owned())).collect(),
    );

    let alpha = Key::Str("alpha".to_owned());
    let beta = Key::Str("beta".to_owned());
    let gamma = Key::Str("gamma".to_owned());
    assert!(set.contains(&alpha));
    assert_eq!(set.get(&alpha), Some(&alpha));
    assert!(set.contains(&beta));
    assert_eq!(set.get(&beta), Some(&beta));
    assert!(!set.contains(&gamma));
    assert_eq!(set.get(&gamma), None);
}

#[test]
fn duplicate_value_rejected() {
    let r = FrozenSet::try_from_vec(vec![Key::U8(u8::MAX), Key::U8(u8::MAX)]);
    assert_eq!(r.err(), Some(BuildError::DuplicateKey));
}

#[test]
fn set_entries_from_the_back() {
    let set = u8_set(vec![5, 6, 7]);
    let mut it = set.entries();
    let mut seen = Vec::new();
    while let Some(v) = it.next_back() {
        match v {
            Key::U8(x) => seen.push(*x),
            other => panic!("unexpected value {other:?}"),
        }
    }
    seen.sort_unstable();
    assert_eq!(seen, [5, 6, 7]);
    assert!(set.as_map().get(&Key::U8(6)).is_some());
}

#[test]
fn cloned_set_holds_the_same_values() {
    let set = u8_set(vec![4, 8, 15, 16, 23, 42]);
    let copy = set.clone();
    assert!(copy.eq(&set));
    assert!(copy.contains(&Key::U8(23)));
    assert!(!copy.contains(&Key::U8(24)));
}

#[test]
fn try_from_vec_builds_a_set() {
    let set = FrozenSet::try_from_vec((0u16..40).map(Key::U16).collect()).expect("distinct values build");
    assert_eq!(set.len(), 40);
    assert!(set.contains(&Key::U16(39)));
    assert!(!set.contains(&Key::U16(40)));
}

#[test]
#[should_panic = "duplicate key present"]
fn panic_duplicate_value() {
    drop(FrozenSet::from_vec(vec![Key::U8(u8::MAX), Key::U8(u8::MAX)]));
}

#[test]
fn set_iterator_skip_and_count() {
    let set = u8_set(vec![5, 6, 7]);
    let mut listed = Vec::new();
    let mut it = set.entries();
    while let Some(v) = it.next() {
        listed.push(v.clone());
    }
    assert_eq!(set.entries().nth(1), Some(&listed[1]));
    assert_eq!(set.entries().last(), Some(&listed[2]));
    assert_eq!(set.entries().count(), 3);
    assert_eq!(set.entries().nth(3), None);
}
