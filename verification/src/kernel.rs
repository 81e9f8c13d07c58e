//! Perfect hashing arithmetic: reducing hashes to ranges, bucket selection and pilot scrambling.

use vstd::prelude::*;
use vstd::arithmetic::power2::{pow2, lemma_pow2_pos, lemma_pow2_adds, lemma2_to64, lemma_pow2_strictly_increases};
use vstd::bits::lemma_u64_shr_is_div;
use vstd::arithmetic::div_mod::lemma_multiply_divide_lt;

verus! {

/// The maximum number of entries.
pub const MAX_LEN: usize = 65535;

/// Maps with at most this many entries use linear scanning for lookups; no hashing or auxiliary data involved.
pub const SCAN_MAX: usize = 1;

/// Maps with at most this many entries first try the table-free "direct" strategy, which finds a single
/// seed under which the keys are already perfect.
pub const DIRECT_MAX: usize = 10;

/// The closest odd number to `2^64 / phi`. Used because its bits are well-dispersed.
pub const BUCKET_MUL: u64 = 11_400_714_819_323_198_485;

/// The closest odd number to `2^64 / pi`. Used because its bits are well-dispersed.
pub const PILOT_MUL: u64 = 5_871_781_006_564_002_453;

/// The average number of keys per bucket in the pilot strategy.
pub const LAMBDA: usize = 4;

/// `2^32`.
pub open spec fn two32() -> nat {
    0x1_0000_0000
}

/// The reduction of `hash` into `[0, len)` by its low 32 bits: `floor(lo32(hash) * len / 2^32)`.
pub open spec fn spec_fastrange(hash: u64, len: nat) -> nat {
    ((hash as nat % two32()) * len / two32()) as nat
}

/// Reduces a 64-bit hash into `[0, len)` without division, using its low 32 bits.
pub fn fastrange(hash: u64, len: usize) -> (r: usize)
    requires
        len <= u32::MAX,
    ensures
        r == spec_fastrange(hash, len as nat),
        len > 0 ==> r < len,
{
    let lo: u64 = (#[verifier::truncate] (hash as u32)) as u64;
    assert(lo == hash as nat % two32()) by (bit_vector)
        requires lo == (hash as u32) as u64;
    let l: u64 = len as u64;
    assert(lo * l < 0x1_0000_0000 * 0x1_0000_0000) by (nonlinear_arith)
        requires lo < 0x1_0000_0000, l < 0x1_0000_0000;
    let prod: u64 = lo * l;
    let r: u64 = prod >> 32;
    assert(r == prod / 0x1_0000_0000) by (bit_vector)
        requires r == prod >> 32;
    proof {
        if len > 0 {
            assert(prod / 0x1_0000_0000 < l) by (nonlinear_arith)
                requires prod == lo * l, lo < 0x1_0000_0000, l > 0;
        }
    }
    assert(r < 0x1_0000_0000) by (bit_vector)
        requires r == prod >> 32;
    r as usize
}

/// A reduced hash lies in `[0, len)`.
pub proof fn lemma_fastrange_bound(hash: u64, len: nat)
    requires
        len > 0,
    ensures
        spec_fastrange(hash, len) < len,
{
    let a = hash as nat % two32();
    assert(a * len / two32() < len) by (nonlinear_arith)
        requires a < two32(), len > 0, two32() == 0x1_0000_0000;
}

/// Whether `len` is a power of two: `len == 2^k` for some `k` in `1..=15`, as pilot table lengths are.
pub open spec fn is_table_len(len: nat, k: nat) -> bool {
    1 <= k <= 15 && len == pow2(k)
}

/// The bucket a hash falls in when the bucket count is `2^(64 - shift)`: the top bits of `hash * BUCKET_MUL`.
pub open spec fn spec_bucket(hash: u64, shift: u32) -> nat {
    (vstd::wrapping::u64_specs::wrapping_mul(hash, BUCKET_MUL) >> shift) as nat
}

/// Returns the shift that selects one of `num_buckets` buckets: `64 - log2(num_buckets)`.
pub fn bucket_shift(num_buckets: usize, Ghost(k): Ghost<nat>) -> (shift: u32)
    requires
        is_table_len(num_buckets as nat, k),
    ensures
        shift == 64 - k,
{
    let tz = (num_buckets as u64).trailing_zeros();
    proof {
        lemma2_to64();
        let nb = num_buckets as u64;
        assert(nb == 1u64 << (k as u64)) by {
            vstd::bits::lemma_u64_shl_is_mul(1, k as u64);
        }
        vstd::std_specs::bits::axiom_u64_trailing_zeros(nb);
        let kk = k as u64;
        assert(tz as u64 == kk) by (bit_vector)
            requires
                nb == 1u64 << kk,
                1 <= kk <= 15,
                0 <= tz <= 64,
                nb == 0 <==> tz == 64,
                tz < 64 ==> (nb >> tz) & 1u64 == 1u64,
                forall|j: u64| 0 <= j < tz ==> #[trigger] (nb >> j) & 1u64 == 0u64,
        ;
    }
    64 - tz
}

/// A bucket index is below the bucket count `2^(64 - shift)`.
pub proof fn lemma_bucket_bound(hash: u64, shift: u32)
    requires
        1 <= shift <= 63,
    ensures
        spec_bucket(hash, shift) < pow2((64 - shift) as nat),
{
    let x = vstd::wrapping::u64_specs::wrapping_mul(hash, BUCKET_MUL);
    lemma_u64_shr_is_div(x, shift as u64);
    lemma_pow2_adds(shift as nat, (64 - shift) as nat);
    lemma2_to64();
    lemma_pow2_pos(shift as nat);
    let p = pow2(shift as nat);
    let q = pow2((64 - shift) as nat);
    lemma_multiply_divide_lt(x as int, p as int, q as int);
}

/// Returns the bucket index for a hash, given the shift for a bucket count of `2^(64 - shift)`.
pub fn bucket(hash: u64, shift: u32) -> (b: usize)
    requires
        49 <= shift <= 63,
    ensures
        b == spec_bucket(hash, shift),
        b < pow2((64 - shift) as nat),
{
    let x = hash.wrapping_mul(BUCKET_MUL);
    let r = x >> shift;
    proof {
        lemma_u64_shr_is_div(x, shift as u64);
        lemma_pow2_adds(shift as nat, (64 - shift) as nat);
        lemma2_to64();
        lemma_pow2_pos(shift as nat);
        lemma_pow2_pos((64 - shift) as nat);
        let p = pow2(shift as nat);
        let q = pow2((64 - shift) as nat);
        assert(x < p * q);
        assert(x as nat / p < q) by {
            lemma_multiply_divide_lt(x as int, p as int, q as int);
        }
        assert(q <= pow2(15)) by {
            if 64 - shift < 15 {
                lemma_pow2_strictly_increases((64 - shift) as nat, 15);
            }
        }
    }
    r as usize
}

/// The slot a bucket's pilot sends a hash to, out of `slots` slots.
pub open spec fn spec_pilot_slot(hash: u64, pilot: u16, slots: nat) -> nat {
    let mixed = vstd::wrapping::u64_specs::wrapping_mul(
        hash ^ vstd::wrapping::u64_specs::wrapping_mul(PILOT_MUL, pilot as u64),
        PILOT_MUL,
    );
    spec_fastrange(mixed, slots)
}

/// Returns the slot that a bucket's pilot sends a hash to.
pub fn pilot_slot(hash: u64, pilot: u16, slots: usize) -> (s: usize)
    requires
        0 < slots <= u32::MAX,
    ensures
        s == spec_pilot_slot(hash, pilot, slots as nat),
        s < slots,
{
    let mixed = (hash ^ PILOT_MUL.wrapping_mul(pilot as u64)).wrapping_mul(PILOT_MUL);
    fastrange(mixed, slots)
}

/// The number of slots that the pilot strategy scatters `n` keys into: `n` plus about 1% slack.
pub open spec fn spec_slot_count(n: nat) -> nat {
    n + (n + 99) / 100
}

/// Returns the number of slots that the pilot strategy scatters `n` keys into.
pub fn slot_count(n: usize) -> (r: usize)
    requires
        n <= MAX_LEN,
    ensures
        r == spec_slot_count(n as nat),
        n <= r <= 66191,
{
    n + (n + 99) / 100
}

/// The smallest power of two that is at least `x`, searching upwards from the power of two `p`.
pub open spec fn pow2_at_least(x: nat, p: nat) -> nat
    decreases (if p >= x { 0 } else { x - p }),
    when p > 0
{
    if p >= x {
        p
    } else {
        pow2_at_least(x, 2 * p)
    }
}

/// The number of pilot buckets for `n` entries: the smallest power of two at least `ceil(n / LAMBDA)`,
/// and at least 2.
pub open spec fn spec_bucket_count(n: nat) -> nat {
    let p = pow2_at_least((n + 3) / 4, 1);
    if p < 2 { 2 } else { p }
}

proof fn lemma_pow2_at_least(x: nat, k: nat) -> (j: nat)
    requires
        x <= 16384,
        k <= 14,
    ensures
        k <= j <= 14,
        pow2_at_least(x, pow2(k)) == pow2(j),
        pow2(j) >= x,
        pow2(k) >= x ==> j == k,
    decreases 14 - k,
{
    lemma_pow2_pos(k);
    lemma2_to64();
    if pow2(k) >= x {
        k
    } else {
        vstd::arithmetic::power2::lemma_pow2_unfold(k + 1);
        if k == 14 {
            assert(false);
        }
        lemma_pow2_at_least(x, k + 1)
    }
}

/// Returns the number of pilot buckets for `n` entries.
pub fn bucket_count(n: usize) -> (r: usize)
    requires
        n <= MAX_LEN,
    ensures
        r == spec_bucket_count(n as nat),
        exists|k: nat| #[trigger] is_table_len(r as nat, k),
{
    let target = (n + LAMBDA - 1) / LAMBDA;
    let mut p: usize = 1;
    proof {
        lemma2_to64();
        lemma_pow2_at_least(target as nat, 0);
    }
    let ghost mut k: nat = 0;
    while p < target
        invariant
            target <= 16384,
            k <= 14,
            p == pow2(k),
            pow2_at_least(target as nat, p as nat) == pow2_at_least(target as nat, 1),
        decreases 16384 - p,
    {
        proof {
            lemma2_to64();
            if k == 14 {
                assert(false);
            }
            vstd::arithmetic::power2::lemma_pow2_unfold(k + 1);
        }
        p = p * 2;
        proof {
            k = k + 1;
        }
    }
    proof {
        lemma_pow2_at_least(target as nat, 0);
        assert(pow2_at_least(target as nat, p as nat) == p);
        lemma2_to64();
    }
    let r = if p < 2 { 2 } else { p };
    proof {
        if p < 2 {
            assert(is_table_len(r as nat, 1));
        } else {
            assert(k >= 1);
            assert(is_table_len(r as nat, k));
        }
    }
    r
}

/// The bucket count of at most `MAX_LEN` entries is a pilot table length.
pub proof fn lemma_bucket_count_table(n: nat) -> (k: nat)
    requires
        n <= MAX_LEN,
    ensures
        is_table_len(spec_bucket_count(n), k),
{
    lemma2_to64();
    let j = lemma_pow2_at_least((n + 3) / 4, 0);
    if pow2(j) < 2 {
        1
    } else {
        assert(j != 0);
        j
    }
}

/// The base-2 logarithm of `x`, rounded down.
pub open spec fn log2(x: nat) -> nat
    decreases x,
{
    if x <= 1 {
        0
    } else {
        1 + log2(x / 2)
    }
}

/// The logarithm of a power of two is its exponent.
pub proof fn lemma_log2_pow2(k: nat)
    ensures
        log2(pow2(k)) == k,
    decreases k,
{
    if k > 0 {
        vstd::arithmetic::power2::lemma_pow2_unfold(k);
        lemma_pow2_pos((k - 1) as nat);
        lemma_log2_pow2((k - 1) as nat);
    } else {
        lemma2_to64();
    }
}

/// The entry index that a map of `n` entries with the given pilot and remap tables assigns to a hash.
/// Without a pilot table, the hash is reduced directly into `[0, n)`. With one, the hash selects a bucket,
/// the bucket's pilot selects one of `slot_count(n)` slots, and slots past `n` are remapped below `n`.
pub open spec fn spec_index(hash: u64, n: nat, pilots: Seq<u16>, remap: Seq<u16>) -> int {
    if pilots.len() == 0 {
        spec_fastrange(hash, n) as int
    } else {
        let b = spec_bucket(hash, (64 - log2(pilots.len())) as u32);
        let s = spec_pilot_slot(hash, pilots[b as int], spec_slot_count(n));
        if s < n {
            s as int
        } else {
            remap[s - n] as int
        }
    }
}

} // verus!
