//! Bit patterns of integer literals: the two's-complement bits that an integer key of a given width holds,
//! as a key written as a literal is hashed.

use vstd::arithmetic::power2::{lemma2_to64, lemma2_to64_rest, lemma_pow2_adds, pow2};
use vstd::prelude::*;

verus! {

/// An integer key's bit pattern, in the width of its type.
#[derive(Clone, Copy, Debug, PartialEq, Eq, Structural)]
pub enum IntBits {
    W8(u8),
    W16(u16),
    W32(u32),
    W64(u64),
    W128(u128),
}

/// Whether `width` is the width in bytes of an integer type: 1, 2, 4, 8 or 16.
pub open spec fn valid_width(width: u8) -> bool {
    width == 1 || width == 2 || width == 4 || width == 8 || width == 16
}

/// The number of bits in `width` bytes.
pub open spec fn bits_of(width: u8) -> nat {
    8 * width as nat
}

/// The largest magnitude that a non-negative literal of the signed or unsigned type of `width` bytes can have.
pub open spec fn max_positive(signed: bool, width: u8) -> int {
    if signed {
        pow2((bits_of(width) - 1) as nat) - 1
    } else {
        pow2(bits_of(width)) - 1
    }
}

/// The width in bytes of a bit pattern.
pub open spec fn int_bits_width(b: IntBits) -> u8 {
    match b {
        IntBits::W8(_) => 1,
        IntBits::W16(_) => 2,
        IntBits::W32(_) => 4,
        IntBits::W64(_) => 8,
        IntBits::W128(_) => 16,
    }
}

/// The value of a bit pattern, read as an unsigned number.
pub open spec fn int_bits_value(b: IntBits) -> nat {
    match b {
        IntBits::W8(v) => v as nat,
        IntBits::W16(v) => v as nat,
        IntBits::W32(v) => v as nat,
        IntBits::W64(v) => v as nat,
        IntBits::W128(v) => v as nat,
    }
}

/// The powers of two at the widths of integer types and one bit below them.
pub proof fn lemma_width_pows()
    ensures
        pow2(7) == 0x80,
        pow2(8) == 0x100,
        pow2(15) == 0x8000,
        pow2(16) == 0x1_0000,
        pow2(31) == 0x8000_0000,
        pow2(32) == 0x1_0000_0000,
        pow2(63) == 0x8000_0000_0000_0000,
        pow2(64) == 0x1_0000_0000_0000_0000,
        pow2(127) == 0x8000_0000_0000_0000_0000_0000_0000_0000,
        pow2(128) == 0x1_0000_0000_0000_0000_0000_0000_0000_0000,
{
    lemma2_to64();
    lemma2_to64_rest();
    lemma_pow2_adds(64, 63);
    lemma_pow2_adds(64, 64);
}

/// Shifting one left by `b` bits gives `2^b`, at the shifts that integer widths use.
proof fn lemma_shift_values(b: u32)
    requires
        b == 7 || b == 8 || b == 15 || b == 16 || b == 31 || b == 32 || b == 63 || b == 64 || b == 127,
    ensures
        (1u128 << b) == pow2(b as nat),
{
    lemma_width_pows();
    assert(1u128 << 7u32 == 0x80u128 && 1u128 << 8u32 == 0x100u128 && 1u128 << 15u32 == 0x8000u128
        && 1u128 << 16u32 == 0x1_0000u128 && 1u128 << 31u32 == 0x8000_0000u128
        && 1u128 << 32u32 == 0x1_0000_0000u128 && 1u128 << 63u32 == 0x8000_0000_0000_0000u128
        && 1u128 << 64u32 == 0x1_0000_0000_0000_0000u128
        && 1u128 << 127u32 == 0x8000_0000_0000_0000_0000_0000_0000_0000u128) by (bit_vector);
}

/// The two's-complement bit pattern of `mag` in `width` bytes, or `None` if it does not fit the type.
pub fn positive_bits(mag: u128, signed: bool, width: u8) -> (r: Option<u128>)
    requires
        valid_width(width),
    ensures
        r == (if mag <= max_positive(signed, width) { Some(mag) } else { None::<u128> }),
{
    proof {
        lemma_width_pows();
    }
    let bits: u32 = (width as u32) * 8;
    let max: u128 = if signed {
        proof {
            lemma_shift_values((bits - 1) as u32);
        }
        (1u128 << (bits - 1)) - 1
    } else if width >= 16 {
        u128::MAX
    } else {
        proof {
            lemma_shift_values(bits);
        }
        (1u128 << bits) - 1
    };
    if mag <= max {
        Some(mag)
    } else {
        None
    }
}

/// Keeps only the low `width` bytes of `value`.
pub fn mask(value: u128, width: u8) -> (r: u128)
    requires
        valid_width(width),
    ensures
        r == (value as nat) % pow2(bits_of(width)),
{
    proof {
        lemma_width_pows();
    }
    if width >= 16 {
        proof {
            assert(bits_of(width) == 128);
        }
        value
    } else {
        let bits: u32 = (width as u32) * 8;
        proof {
            lemma_shift_values(bits);
            assert(value & 0xFFu128 == value % 0x100 && value & 0xFFFFu128 == value % 0x1_0000
                && value & 0xFFFF_FFFFu128 == value % 0x1_0000_0000
                && value & 0xFFFF_FFFF_FFFF_FFFFu128 == value % 0x1_0000_0000_0000_0000) by (bit_vector);
        }
        let low: u128 = (1u128 << bits) - 1;
        proof {
            if width == 1 {
                assert(low == 0xFF);
                assert(bits_of(width) == 8);
            } else if width == 2 {
                assert(low == 0xFFFF);
                assert(bits_of(width) == 16);
            } else if width == 4 {
                assert(low == 0xFFFF_FFFF);
                assert(bits_of(width) == 32);
            } else {
                assert(low == 0xFFFF_FFFF_FFFF_FFFF);
                assert(bits_of(width) == 64);
            }
        }
        value & low
    }
}

/// Subtracting from a multiple of `p` leaves the same remainder as subtracting from `p`.
proof fn lemma_wrapped_mod(mag: int, p: int, top: int)
    requires
        0 < mag < p,
        p <= top,
        top % p == 0,
    ensures
        (top - mag) % p == (p - mag) % p,
{
    let q = top / p;
    vstd::arithmetic::div_mod::lemma_fundamental_div_mod(top, p);
    assert(p * (q - 1) + (p - mag) == top - mag) by (nonlinear_arith)
        requires
            top == p * q,
    ;
    vstd::arithmetic::div_mod::lemma_mod_multiples_vanish(q - 1, p - mag, p);
}

/// The two's-complement bit pattern of `-mag` in `width` bytes, or `None` if it does not fit the type.
pub fn negative_bits(mag: u128, width: u8) -> (r: Option<u128>)
    requires
        valid_width(width),
    ensures
        r == (if mag <= pow2((bits_of(width) - 1) as nat) {
            Some(((pow2(bits_of(width)) - mag) % pow2(bits_of(width)) as int) as u128)
        } else {
            None::<u128>
        }),
{
    proof {
        lemma_width_pows();
    }
    let bits: u32 = (width as u32) * 8;
    proof {
        lemma_shift_values((bits - 1) as u32);
    }
    let min_magnitude: u128 = 1u128 << (bits - 1);
    if mag > min_magnitude {
        return None;
    }
    let wrapped = 0u128.wrapping_sub(mag);
    let r = mask(wrapped, width);
    proof {
        let p = pow2(bits_of(width)) as int;
        if width == 1 {
            assert(p == 0x100);
        } else if width == 2 {
            assert(p == 0x1_0000);
        } else if width == 4 {
            assert(p == 0x1_0000_0000);
        } else if width == 8 {
            assert(p == 0x1_0000_0000_0000_0000);
        } else {
            assert(p == 0x1_0000_0000_0000_0000_0000_0000_0000_0000);
        }
        if mag > 0 {
            let top = 0x1_0000_0000_0000_0000_0000_0000_0000_0000int;
            assert(wrapped == top - mag);
            assert(top % p == 0);
            lemma_wrapped_mod(mag as int, p, top);
            assert((wrapped as int) % p == (p - mag) % p);
            assert(r as int == (wrapped as int) % p);
        } else {
            assert(wrapped == 0);
            assert(r as int == (wrapped as int) % p);
            assert(0int % p == 0);
            assert(p % p == 0) by {
                vstd::arithmetic::div_mod::lemma_mod_self_0(p);
            }
        }
        assert(r as int == (p - mag) % p);
        assert(mag <= pow2((bits_of(width) - 1) as nat));
    }
    Some(r)
}

/// Narrows a bit pattern that fits `width` bytes into the matching `IntBits` variant.
pub fn int_bits(width: u8, bits: u128) -> (r: IntBits)
    requires
        valid_width(width),
        bits < pow2(bits_of(width)),
    ensures
        int_bits_width(r) == width,
        int_bits_value(r) == bits,
{
    proof {
        lemma_width_pows();
    }
    match width {
        1 => IntBits::W8(bits as u8),
        2 => IntBits::W16(bits as u16),
        4 => IntBits::W32(bits as u32),
        8 => IntBits::W64(bits as u64),
        _ => IntBits::W128(bits),
    }
}

} // verus!
