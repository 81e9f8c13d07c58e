use lute::literal::{int_bits, mask, negative_bits, positive_bits, IntBits};

#[test]
fn positive_literals_fit_their_type() {
    assert_eq!(positive_bits(255, false, 1), Some(255));
    assert_eq!(positive_bits(256, false, 1), None);
    assert_eq!(positive_bits(1000, false, 2), Some(1000));
    assert_eq!(positive_bits(0x7FFF_FFFF, true, 4), Some(0x7FFF_FFFF));
    assert_eq!(positive_bits(0x8000_0000, true, 4), None);
    assert_eq!(positive_bits(0xFFFF_FFFF, false, 4), Some(0xFFFF_FFFF));
    assert_eq!(positive_bits(u128::MAX, false, 16), Some(u128::MAX));
    assert_eq!(positive_bits((1u128 << 127) - 1, true, 16), Some((1u128 << 127) - 1));
    assert_eq!(positive_bits(1u128 << 127, true, 16), None);
    assert_eq!(positive_bits(u64::MAX as u128, false, 8), Some(u64::MAX as u128));
}

#[test]
fn negative_literals_use_twos_complement() {
    assert_eq!(negative_bits(1, 4), Some(0xFFFF_FFFF));
    assert_eq!(negative_bits(128, 1), Some(0x80));
    assert_eq!(negative_bits(129, 1), None);
    assert_eq!(negative_bits(0x8000_0000, 4), Some(0x8000_0000));
    assert_eq!(negative_bits(0x8000_0001, 4), None);
    assert_eq!(negative_bits(1u128 << 127, 16), Some(1u128 << 127));
    assert_eq!(negative_bits(0, 2), Some(0));
    assert_eq!(negative_bits(1, 8), Some(u64::MAX as u128));
}

#[test]
fn masks_and_narrowing() {
    assert_eq!(mask(0x1234, 1), 0x34);
    assert_eq!(mask(u128::MAX, 2), 0xFFFF);
    assert_eq!(mask(u128::MAX, 16), u128::MAX);
    assert!(matches!(int_bits(1, 65), IntBits::W8(65)));
    assert!(matches!(int_bits(2, 1000), IntBits::W16(1000)));
    assert!(matches!(int_bits(4, 0xDEAD_BEEF), IntBits::W32(0xDEAD_BEEF)));
    assert!(matches!(int_bits(8, 1), IntBits::W64(1)));
    assert!(matches!(int_bits(16, u128::MAX), IntBits::W128(u128::MAX)));
}
