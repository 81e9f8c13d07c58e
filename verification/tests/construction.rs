use lute::construct::{gather, is_permutation, FIXED_SEED};
use lute::kernel::{slot_count, DIRECT_MAX, SCAN_MAX};
use lute::pilots::{compact, order_buckets_by_size, try_pilots, EMPTY};
use lute::{construct, ConstructError, FrozenMap, Key, MAX_LEN};
use std::cmp::Reverse;
use std::collections::HashSet;

#[test]
fn construct_gather_permutation() {
    let data: Vec<String> = ["a", "b", "c", "d", "e", "f"].map(String::from).to_vec();
    let gathered = gather(data, &[2, 0, 1, 3, 5, 4]);
    assert_eq!(gathered, ["c", "a", "b", "d", "f", "e"]);
}

#[test]
fn construct_counting_sort() {
    let cases: &[&[u16]] = &[
        &[3],
        &[1, 1, 1, 1],
        &[0, 5, 2, 5, 1, 2, 5],
        &[1, 2, 3, 4, 5],
        &[5, 4, 3, 2, 1],
        &[10, 0, 0, 0, 0, 0, 0],
        &[2, 0, 2, 0, 2, 0, 2],
    ];

    for &sizes in cases {
        let mut starts = vec![0u16; sizes.len() + 1];
        for (b, &s) in sizes.iter().enumerate() {
            starts[b + 1] = starts[b] + s;
        }

        let mut expected: Vec<u16> = (0..sizes.len()).map(|b| u16::try_from(b).unwrap()).collect();
        expected.sort_unstable_by_key(|&b| (Reverse(sizes[usize::from(b)]), b));

        assert_eq!(order_buckets_by_size(&starts), expected, "sizes = {sizes:?}");
    }
}

/// Asserts that every entry is present and the first `absent_limit` non-entry keys are absent.
fn check_lookups(map: &FrozenMap<u32>, entries: &[(u32, u32)], n: u32, absent_limit: usize) {
    for &(k, v) in entries {
        let key = Key::U32(k);
        assert_eq!(map.get(&key), Some(&v), "present n={n} key={k}");
        assert_eq!(map.get_entry(&key), Some((&key, &v)), "present n={n} key={k}");
    }

    let present: HashSet<_> = entries.iter().map(|&(k, _)| k).collect();
    let mut checked = 0;
    for k in 0u32.. {
        if checked >= absent_limit {
            break;
        }
        if !present.contains(&k) {
            assert_eq!(map.get(&Key::U32(k)), None, "absent n={n} key={k}");
            checked += 1;
        }
    }
}

#[test]
fn construct_strategies_across_sizes() {
    let sizes = (0u32..=20)
        .chain([50, 100, 256, 1000, 49152, 50000])
        .chain([253, 1013, 64887]); // `n` where `slot_count(n)` is a power of 2
    let (mut saw_scan, mut saw_direct, mut saw_pilots) = (false, false, false);

    for n in sizes {
        // `2_654_435_769` is the closest odd number to `2^32 / phi`; its multiples evenly scatter `0..n` into distinct keys.
        let entries: Vec<(u32, u32)> = (0..n).map(|k| (k.wrapping_mul(2_654_435_769), k)).collect();
        let map = FrozenMap::from_vec(entries.iter().map(|&(k, v)| (Key::U32(k), v)).collect());

        let count = usize::try_from(n).unwrap();
        if count <= SCAN_MAX {
            assert!(map.pilots().is_empty(), "scan n={n} should have no pilots");
            saw_scan = true;
        } else if map.pilots().is_empty() {
            saw_direct = true;
        } else {
            saw_pilots = true;
        }
        if count > DIRECT_MAX {
            assert!(!map.pilots().is_empty(), "n={n} above DIRECT_MAX should use the pilot strategy");
            assert_eq!(
                map.remap().len(),
                slot_count(count) - count,
                "n={n} remap table should cover the slack slots"
            );
        }

        check_lookups(&map, &entries, n, 500);
    }

    assert!(saw_scan, "scan strategy never used");
    assert!(saw_direct, "direct strategy never used");
    assert!(saw_pilots, "pilot strategy never used");
}

#[test]
fn direct_strategy_structured_keys() {
    fn assert_direct(name: &str, keys: impl Iterator<Item = u64>) {
        let map = FrozenMap::from_vec(keys.map(|k| (Key::U64(k), k)).collect());
        assert!(map.pilots().is_empty(), "{name} should use the direct strategy");
        let mut it = map.entries();
        while let Some((k, v)) = it.next() {
            assert_eq!(map.get(k), Some(v), "{name} key={k:?}");
        }
    }

    assert_direct("consecutive", 0..8);
    assert_direct("stride16", (0..8).map(|k| k * 16));
    assert_direct("shift16", (0..8).map(|k| k << 16));
    assert_direct("shift48", (0..8).map(|k| k << 48));
    assert_direct("big_offset", (0..8).map(|k| (1u64 << 40) + k));
    assert_direct("interleave", (0..8).map(|k| k | (k << 32)));
}

#[test]
fn construct_construct_at_max_len() {
    let n = u32::try_from(MAX_LEN).expect("MAX_LEN fits in u32");
    let map = FrozenMap::from_vec((0..n).map(|k| (Key::U32(k), k)).collect());

    assert_eq!(map.len(), MAX_LEN);
    for k in 0..n {
        assert_eq!(map.get(&Key::U32(k)), Some(&k), "missing key {k}");
    }
    assert_eq!(map.get(&Key::U32(n)), None);
}

#[test]
fn construct_scan_state() {
    let st = construct(&[]).unwrap();
    assert_eq!((st.seed, st.pilots.len(), st.remap.len(), st.indices.len()), (0, 0, 0, 0));

    let st = construct(&[Key::Str("only".to_owned())]).unwrap();
    assert_eq!(st.seed, 0);
    assert!(st.pilots.is_empty() && st.remap.is_empty());
    assert_eq!(st.indices, [0]);
}

#[test]
fn construct_orders_every_key_once() {
    for n in [2u32, 5, 10, 11, 300] {
        let keys: Vec<Key> = (0..n).map(|k| Key::U32(k * 7)).collect();
        let st = construct(&keys).unwrap();
        assert!(is_permutation(&st.indices), "n={n}");
        assert_eq!(st.indices.len(), keys.len());
        // Seeds are drawn from a generator, never handed back as its own seed.
        assert_ne!(st.seed, FIXED_SEED);
        assert_ne!(st.seed, 0);
        if n as usize > DIRECT_MAX {
            assert!(!st.pilots.is_empty());
        }
    }
}

#[test]
fn construct_reports_identical_keys() {
    let keys = vec![Key::U32(1), Key::U32(2), Key::U32(1)];
    match construct(&keys) {
        Err(ConstructError::Identical(i, j)) => {
            assert_ne!(i, j);
            assert_eq!(keys[i], keys[j]);
        }
        other => panic!("expected identical keys, got {other:?}"),
    }
}

#[test]
fn permutation_check() {
    assert!(is_permutation(&[]));
    assert!(is_permutation(&[0]));
    assert!(is_permutation(&[2, 0, 1]));
    assert!(!is_permutation(&[1]));
    assert!(!is_permutation(&[0, 0]));
    assert!(!is_permutation(&[0, 2]));
}

#[test]
fn construction_is_reproducible() {
    for n in [3u32, 9, 40, 2000] {
        let keys: Vec<Key> = (0..n).map(|k| Key::Str(format!("key-{k}"))).collect();
        let a = construct(&keys).unwrap();
        let b = construct(&keys).unwrap();
        assert_eq!(a.seed, b.seed, "n={n}");
        assert_eq!(a.pilots, b.pilots, "n={n}");
        assert_eq!(a.remap, b.remap, "n={n}");
        assert_eq!(a.indices, b.indices, "n={n}");
        assert_eq!(a.pilots.is_empty(), n as usize <= DIRECT_MAX, "n={n}");
    }
}

#[test]
fn construct_reports_equal_keys_in_index_order() {
    let r = construct(&[Key::U32(7), Key::U32(7)]);
    assert!(matches!(r, Err(ConstructError::Identical(0, 1))), "got {r:?}");
}

#[test]
fn pilot_search_reports_equal_hashes_in_index_order() {
    let r = try_pilots(&vec![5u64, 5u64], 2);
    assert!(matches!(r, Err(ConstructError::Identical(0, 1))), "got {r:?}");
}

#[test]
fn compact_moves_overflow_into_holes() {
    assert_eq!(compact(&vec![EMPTY, 0, 1], 2), (vec![0], vec![1, 0]));
}

#[test]
fn compact_fills_unused_overflow_with_zero() {
    assert_eq!(compact(&vec![0, 1, EMPTY, EMPTY], 2), (vec![0, 0], vec![0, 1]));
    assert_eq!(compact(&vec![1, EMPTY, 0, EMPTY], 2), (vec![1, 0], vec![1, 0]));
}

#[test]
fn compact_with_no_entries() {
    assert_eq!(compact(&vec![EMPTY, EMPTY], 0), (vec![0, 0], Vec::<u16>::new()));
}

#[test]
fn mod_gather_permutation() {
    construct_gather_permutation();
}

#[test]
fn pilots_counting_sort() {
    construct_counting_sort();
}

#[test]
fn mod_strategies_across_sizes() {
    construct_strategies_across_sizes();
}

#[test]
fn mod_construct_at_max_len() {
    construct_construct_at_max_len();
}

#[test]
#[should_panic = "cannot have more than"]
fn construct_construct_above_max_len_panics() {
    let n = u32::try_from(MAX_LEN).expect("MAX_LEN fits in u32");
    drop(FrozenMap::from_vec((0..=n).map(|k| (Key::U32(k), ())).collect()));
}

#[test]
#[should_panic = "cannot have more than"]
fn mod_construct_above_max_len_panics() {
    construct_construct_above_max_len_panics();
}

#[test]
fn pilot_search_reports_the_first_identical_pair() {
    let r = try_pilots(&vec![5u64, 5u64, 5u64], 3);
    assert!(matches!(r, Err(ConstructError::Identical(0, 1))), "got {r:?}");
    let r = construct(&[Key::U32(9), Key::U32(4), Key::U32(9), Key::U32(9)]);
    assert!(matches!(r, Err(ConstructError::Identical(0, 2))), "got {r:?}");
}
