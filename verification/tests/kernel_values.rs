use lute::frozen_map::{pilot_shift, remap_targets_valid, NO_PILOTS};
use lute::kernel::{bucket, bucket_count, fastrange, pilot_slot, slot_count};
use lute::key::hash_key;
use lute::{CowSlice, Key};

#[test]
fn fastrange_values() {
    assert_eq!(fastrange(0, 10), 0);
    assert_eq!(fastrange(0xFFFF_FFFF, 10), 9);
    assert_eq!(fastrange(1 << 31, 10), 5);
    // Only the low 32 bits take part.
    assert_eq!(fastrange(0xABCD_0000_0000_0000 | (1 << 31), 10), 5);
}

#[test]
fn slot_and_bucket_counts() {
    assert_eq!(slot_count(0), 0);
    assert_eq!(slot_count(1), 2);
    assert_eq!(slot_count(100), 101);
    assert_eq!(slot_count(101), 103);
    assert_eq!(slot_count(65535), 66191);

    assert_eq!(bucket_count(0), 2);
    assert_eq!(bucket_count(8), 2);
    assert_eq!(bucket_count(9), 4);
    assert_eq!(bucket_count(100), 32);
    assert_eq!(bucket_count(65535), 16384);
}

#[test]
fn bucket_and_pilot_values() {
    assert_eq!(bucket(0, 63), 0);
    // The top two bits of the bucket multiplier are `10`.
    assert_eq!(bucket(1, 62), 2);
    assert_eq!(pilot_slot(0, 0, 100), 0);
    assert!(pilot_slot(12345, 7, 100) < 100);
}

#[test]
fn pilot_shift_values() {
    assert_eq!(pilot_shift(&[]), NO_PILOTS);
    assert_eq!(pilot_shift(&[0, 0]), 63);
    assert_eq!(pilot_shift(&[0; 16]), 60);
    assert!(remap_targets_valid(&[0, 3], 4));
    assert!(!remap_targets_valid(&[0, 4], 4));
}

#[test]
fn hashes_depend_on_value_and_seed() {
    let a = hash_key(&Key::U64(5), 7);
    assert_ne!(a, 5);
    assert_ne!(a, 7);
    assert_ne!(a, hash_key(&Key::U64(5), 8));
    assert_ne!(a, hash_key(&Key::U64(6), 7));
    assert_eq!(a, hash_key(&Key::U64(5), 7));
    assert_ne!(hash_key(&Key::Str("ab".to_owned()), 1), hash_key(&Key::Str("ba".to_owned()), 1));
    for k in [Key::Bool(true), Key::Char('x'), Key::U8(3), Key::U16(3), Key::U32(3), Key::I32(-3)] {
        assert_ne!(hash_key(&k, 11), hash_key(&k, 12), "{k:?}");
    }
}

#[test]
fn cow_slices() {
    let owned = CowSlice::Owned(vec![1u16, 2, 3]);
    assert_eq!(owned.len(), 3);
    assert_eq!(owned.as_slice(), &[1, 2, 3]);
    let borrowed: CowSlice<u16> = CowSlice::Borrowed(&[4, 5]);
    assert_eq!(borrowed.len(), 2);
    assert_eq!(borrowed.clone().as_slice(), &[4, 5]);
}
