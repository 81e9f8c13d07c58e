//! Hashing keys written as expressions: each hash write of a key is made on a foldhash hasher through the
//! `Hash` impl of the std type it names, and the hash is what the hasher finishes with.

use crate::construct::{construction_matches, lemma_same_hashes_succeed, MapState};
use crate::frozen_map::{gathered_entries, lemma_construction_parts_valid, parts_valid};
use crate::kernel::MAX_LEN;
use crate::key::{key_hash, Key, KeyView, SeededHash};
use crate::key_expr::{
    bounds_of_one_type, hash_key_writes, int_width, same_bound_type, spec_key_writes, write_views, HashKey, HashKeyView, HashWrite,
    HashWriteView, RangeBound,
};
use crate::literal::{int_bits_width, IntBits};
use core::hash::{Hash, Hasher};
use foldhash::fast::FoldHasher;
use foldhash::SharedSeed;
use vstd::prelude::*;

verus! {

#[verifier::external_type_specification]
#[verifier::external_body]
pub struct ExSharedSeed(SharedSeed);

#[verifier::external_type_specification]
#[verifier::external_body]
pub struct ExFoldHasher<'a>(FoldHasher<'a>);

/// foldhash's hash after the given hash writes, each made through the `Hash` impl of the std type it
/// names, on `foldhash::fast::FoldHasher::with_seed(seed, &SharedSeed::from_u64(seed))`, then `finish`.
/// It is fixed for the target the crate is built for; foldhash multiplies differently where pointers are
/// 32 bits wide, and slices hash their length as a `usize`, so it may differ between targets.
pub uninterp spec fn foldhash_writes(writes: Seq<HashWriteView>, seed: u64) -> u64;

/// A seed with the shared seed that foldhash expands from it.
pub struct ExpandedSeed {
    seed: u64,
    shared: SharedSeed,
}

impl ExpandedSeed {
    /// The seed.
    pub closed spec fn seed(self) -> u64 {
        self.seed
    }
}

/// Expands a seed with `SharedSeed::from_u64(seed)`. The contract claims only that the seed is kept.
#[verifier::external_body]
fn expand_seed(seed: u64) -> (r: ExpandedSeed)
    ensures
        r.seed() == seed,
{
    ExpandedSeed { seed, shared: SharedSeed::from_u64(seed) }
}

/// A foldhash hasher for one seed, with the hash writes made on it so far.
pub struct WriteHasher<'a> {
    hasher: FoldHasher<'a>,
    seed: Ghost<u64>,
    written: Ghost<Seq<HashWriteView>>,
}

impl<'a> WriteHasher<'a> {
    /// The seed of the hasher.
    pub closed spec fn seed(self) -> u64 {
        self.seed@
    }

    /// The hash writes made on the hasher so far.
    pub closed spec fn written(self) -> Seq<HashWriteView> {
        self.written@
    }
}

/// Starts `foldhash::fast::FoldHasher::with_seed(seed, &shared)` for an expanded seed. The contract claims
/// that no write has been made on it yet.
#[verifier::external_body]
fn start<'a>(expanded: &'a ExpandedSeed) -> (h: WriteHasher<'a>)
    ensures
        h.seed() == expanded.seed(),
        h.written() == Seq::<HashWriteView>::empty(),
{
    WriteHasher { hasher: FoldHasher::with_seed(expanded.seed, &expanded.shared), seed: Ghost(expanded.seed), written: Ghost(Seq::empty()) }
}

/// Finishes the hasher with `Hasher::finish`. The contract claims that the result is foldhash's hash after
/// the writes made, as `foldhash_writes` names it.
#[verifier::external_body]
fn finish(h: &WriteHasher) -> (r: u64)
    ensures
        r == foldhash_writes(h.written(), h.seed()),
{
    h.hasher.finish()
}

/// Writes a length with `Hasher::write_usize`. The contract claims only that this write is added to those made.
#[verifier::external_body]
fn write_len(h: &mut WriteHasher, n: usize)
    ensures
        final(h).seed() == old(h).seed(),
        final(h).written() == old(h).written().push(HashWriteView::Len(n)),
{
    h.hasher.write_usize(n)
}

/// Hashes a `str` with its `Hash` impl. The contract claims only that this write is added to those made.
#[verifier::external_body]
fn write_str(h: &mut WriteHasher, s: &str)
    ensures
        final(h).seed() == old(h).seed(),
        final(h).written() == old(h).written().push(HashWriteView::Str(s@)),
{
    s.hash(&mut h.hasher)
}

/// Hashes a `[u8]` with its `Hash` impl. The contract claims only that this write is added to those made.
#[verifier::external_body]
fn write_bytes(h: &mut WriteHasher, b: &[u8])
    ensures
        final(h).seed() == old(h).seed(),
        final(h).written() == old(h).written().push(HashWriteView::Bytes(b@)),
{
    b.hash(&mut h.hasher)
}

/// Hashes a `char` with its `Hash` impl. The contract claims only that this write is added to those made.
#[verifier::external_body]
fn write_char(h: &mut WriteHasher, c: char)
    ensures
        final(h).seed() == old(h).seed(),
        final(h).written() == old(h).written().push(HashWriteView::Char(c)),
{
    c.hash(&mut h.hasher)
}

/// Hashes a `bool` with its `Hash` impl. The contract claims only that this write is added to those made.
#[verifier::external_body]
fn write_bool(h: &mut WriteHasher, b: bool)
    ensures
        final(h).seed() == old(h).seed(),
        final(h).written() == old(h).written().push(HashWriteView::Bool(b)),
{
    b.hash(&mut h.hasher)
}

/// Hashes a `u8` with its `Hash` impl. The contract claims only that this write is added to those made.
#[verifier::external_body]
fn write_u8(h: &mut WriteHasher, v: u8)
    ensures
        final(h).seed() == old(h).seed(),
        final(h).written() == old(h).written().push(HashWriteView::Int(IntBits::W8(v))),
{
    v.hash(&mut h.hasher)
}

/// Hashes a `u16` with its `Hash` impl. The contract claims only that this write is added to those made.
#[verifier::external_body]
fn write_u16(h: &mut WriteHasher, v: u16)
    ensures
        final(h).seed() == old(h).seed(),
        final(h).written() == old(h).written().push(HashWriteView::Int(IntBits::W16(v))),
{
    v.hash(&mut h.hasher)
}

/// Hashes a `u32` with its `Hash` impl. The contract claims only that this write is added to those made.
#[verifier::external_body]
fn write_u32(h: &mut WriteHasher, v: u32)
    ensures
        final(h).seed() == old(h).seed(),
        final(h).written() == old(h).written().push(HashWriteView::Int(IntBits::W32(v))),
{
    v.hash(&mut h.hasher)
}

/// Hashes a `u64` with its `Hash` impl. The contract claims only that this write is added to those made.
#[verifier::external_body]
fn write_u64(h: &mut WriteHasher, v: u64)
    ensures
        final(h).seed() == old(h).seed(),
        final(h).written() == old(h).written().push(HashWriteView::Int(IntBits::W64(v))),
{
    v.hash(&mut h.hasher)
}

/// Hashes a `u128` with its `Hash` impl. The contract claims only that this write is added to those made.
#[verifier::external_body]
fn write_u128(h: &mut WriteHasher, v: u128)
    ensures
        final(h).seed() == old(h).seed(),
        final(h).written() == old(h).written().push(HashWriteView::Int(IntBits::W128(v))),
{
    v.hash(&mut h.hasher)
}

/// Hashes a `[u16]` with its `Hash` impl. The contract claims only that this write is added to those made.
#[verifier::external_body]
fn write_u16s(h: &mut WriteHasher, v: &[u16])
    ensures
        final(h).seed() == old(h).seed(),
        final(h).written() == old(h).written().push(HashWriteView::IntSlice(v@.map_values(|x: u16| IntBits::W16(x)))),
{
    v.hash(&mut h.hasher)
}

/// Hashes a `[u32]` with its `Hash` impl. The contract claims only that this write is added to those made.
#[verifier::external_body]
fn write_u32s(h: &mut WriteHasher, v: &[u32])
    ensures
        final(h).seed() == old(h).seed(),
        final(h).written() == old(h).written().push(HashWriteView::IntSlice(v@.map_values(|x: u32| IntBits::W32(x)))),
{
    v.hash(&mut h.hasher)
}

/// Hashes a `[u64]` with its `Hash` impl. The contract claims only that this write is added to those made.
#[verifier::external_body]
fn write_u64s(h: &mut WriteHasher, v: &[u64])
    ensures
        final(h).seed() == old(h).seed(),
        final(h).written() == old(h).written().push(HashWriteView::IntSlice(v@.map_values(|x: u64| IntBits::W64(x)))),
{
    v.hash(&mut h.hasher)
}

/// Hashes a `[u128]` with its `Hash` impl. The contract claims only that this write is added to those made.
#[verifier::external_body]
fn write_u128s(h: &mut WriteHasher, v: &[u128])
    ensures
        final(h).seed() == old(h).seed(),
        final(h).written() == old(h).written().push(HashWriteView::IntSlice(v@.map_values(|x: u128| IntBits::W128(x)))),
{
    v.hash(&mut h.hasher)
}

/// Hashes the full range `..` with its `Hash` impl. The contract claims only that this write is added to those made.
#[verifier::external_body]
fn write_range_full(h: &mut WriteHasher)
    ensures
        final(h).seed() == old(h).seed(),
        final(h).written() == old(h).written().push(HashWriteView::Range { closed: false, start: None, end: None }),
{
    (..).hash(&mut h.hasher)
}

/// A `char` range bound as a bound of a range key.
pub open spec fn char_bound(o: Option<char>) -> Option<RangeBound> {
    match o {
        Some(x) => Some(RangeBound::Char(x)),
        None => None,
    }
}

/// Hashes the `char` range `start..end`, `start..`, `..end` or `..` with its `Hash` impl. The contract claims
/// only that this write is added to those made.
#[verifier::external_body]
fn write_range_open_char(h: &mut WriteHasher, start: Option<char>, end: Option<char>)
    ensures
        final(h).seed() == old(h).seed(),
        final(h).written() == old(h).written().push(HashWriteView::Range { closed: false, start: char_bound(start), end: char_bound(end) }),
{
    match (start, end) {
        (Some(s), Some(e)) => (s..e).hash(&mut h.hasher),
        (Some(s), None) => (s..).hash(&mut h.hasher),
        (None, Some(e)) => (..e).hash(&mut h.hasher),
        (None, None) => (..).hash(&mut h.hasher),
    }
}

/// Hashes the `char` range `start..=end` or `..=end` with its `Hash` impl. The contract claims only that
/// this write is added to those made.
#[verifier::external_body]
fn write_range_closed_char(h: &mut WriteHasher, start: Option<char>, end: char)
    ensures
        final(h).seed() == old(h).seed(),
        final(h).written() == old(h).written().push(HashWriteView::Range { closed: true, start: char_bound(start), end: Some(RangeBound::Char(end)) }),
{
    match start {
        Some(s) => (s..=end).hash(&mut h.hasher),
        None => (..=end).hash(&mut h.hasher),
    }
}

/// A `u8` range bound as a bound of a range key.
pub open spec fn u8_bound(o: Option<u8>) -> Option<RangeBound> {
    match o {
        Some(x) => Some(RangeBound::Int(IntBits::W8(x))),
        None => None,
    }
}

/// Hashes the `u8` range `start..end`, `start..`, `..end` or `..` with its `Hash` impl. The contract claims
/// only that this write is added to those made.
#[verifier::external_body]
fn write_range_open_u8(h: &mut WriteHasher, start: Option<u8>, end: Option<u8>)
    ensures
        final(h).seed() == old(h).seed(),
        final(h).written() == old(h).written().push(HashWriteView::Range { closed: false, start: u8_bound(start), end: u8_bound(end) }),
{
    match (start, end) {
        (Some(s), Some(e)) => (s..e).hash(&mut h.hasher),
        (Some(s), None) => (s..).hash(&mut h.hasher),
        (None, Some(e)) => (..e).hash(&mut h.hasher),
        (None, None) => (..).hash(&mut h.hasher),
    }
}

/// Hashes the `u8` range `start..=end` or `..=end` with its `Hash` impl. The contract claims only that
/// this write is added to those made.
#[verifier::external_body]
fn write_range_closed_u8(h: &mut WriteHasher, start: Option<u8>, end: u8)
    ensures
        final(h).seed() == old(h).seed(),
        final(h).written() == old(h).written().push(HashWriteView::Range { closed: true, start: u8_bound(start), end: Some(RangeBound::Int(IntBits::W8(end))) }),
{
    match start {
        Some(s) => (s..=end).hash(&mut h.hasher),
        None => (..=end).hash(&mut h.hasher),
    }
}

/// A `u16` range bound as a bound of a range key.
pub open spec fn u16_bound(o: Option<u16>) -> Option<RangeBound> {
    match o {
        Some(x) => Some(RangeBound::Int(IntBits::W16(x))),
        None => None,
    }
}

/// Hashes the `u16` range `start..end`, `start..`, `..end` or `..` with its `Hash` impl. The contract claims
/// only that this write is added to those made.
#[verifier::external_body]
fn write_range_open_u16(h: &mut WriteHasher, start: Option<u16>, end: Option<u16>)
    ensures
        final(h).seed() == old(h).seed(),
        final(h).written() == old(h).written().push(HashWriteView::Range { closed: false, start: u16_bound(start), end: u16_bound(end) }),
{
    match (start, end) {
        (Some(s), Some(e)) => (s..e).hash(&mut h.hasher),
        (Some(s), None) => (s..).hash(&mut h.hasher),
        (None, Some(e)) => (..e).hash(&mut h.hasher),
        (None, None) => (..).hash(&mut h.hasher),
    }
}

/// Hashes the `u16` range `start..=end` or `..=end` with its `Hash` impl. The contract claims only that
/// this write is added to those made.
#[verifier::external_body]
fn write_range_closed_u16(h: &mut WriteHasher, start: Option<u16>, end: u16)
    ensures
        final(h).seed() == old(h).seed(),
        final(h).written() == old(h).written().push(HashWriteView::Range { closed: true, start: u16_bound(start), end: Some(RangeBound::Int(IntBits::W16(end))) }),
{
    match start {
        Some(s) => (s..=end).hash(&mut h.hasher),
        None => (..=end).hash(&mut h.hasher),
    }
}

/// A `u32` range bound as a bound of a range key.
pub open spec fn u32_bound(o: Option<u32>) -> Option<RangeBound> {
    match o {
        Some(x) => Some(RangeBound::Int(IntBits::W32(x))),
        None => None,
    }
}

/// Hashes the `u32` range `start..end`, `start..`, `..end` or `..` with its `Hash` impl. The contract claims
/// only that this write is added to those made.
#[verifier::external_body]
fn write_range_open_u32(h: &mut WriteHasher, start: Option<u32>, end: Option<u32>)
    ensures
        final(h).seed() == old(h).seed(),
        final(h).written() == old(h).written().push(HashWriteView::Range { closed: false, start: u32_bound(start), end: u32_bound(end) }),
{
    match (start, end) {
        (Some(s), Some(e)) => (s..e).hash(&mut h.hasher),
        (Some(s), None) => (s..).hash(&mut h.hasher),
        (None, Some(e)) => (..e).hash(&mut h.hasher),
        (None, None) => (..).hash(&mut h.hasher),
    }
}

/// Hashes the `u32` range `start..=end` or `..=end` with its `Hash` impl. The contract claims only that
/// this write is added to those made.
#[verifier::external_body]
fn write_range_closed_u32(h: &mut WriteHasher, start: Option<u32>, end: u32)
    ensures
        final(h).seed() == old(h).seed(),
        final(h).written() == old(h).written().push(HashWriteView::Range { closed: true, start: u32_bound(start), end: Some(RangeBound::Int(IntBits::W32(end))) }),
{
    match start {
        Some(s) => (s..=end).hash(&mut h.hasher),
        None => (..=end).hash(&mut h.hasher),
    }
}

/// A `u64` range bound as a bound of a range key.
pub open spec fn u64_bound(o: Option<u64>) -> Option<RangeBound> {
    match o {
        Some(x) => Some(RangeBound::Int(IntBits::W64(x))),
        None => None,
    }
}

/// Hashes the `u64` range `start..end`, `start..`, `..end` or `..` with its `Hash` impl. The contract claims
/// only that this write is added to those made.
#[verifier::external_body]
fn write_range_open_u64(h: &mut WriteHasher, start: Option<u64>, end: Option<u64>)
    ensures
        final(h).seed() == old(h).seed(),
        final(h).written() == old(h).written().push(HashWriteView::Range { closed: false, start: u64_bound(start), end: u64_bound(end) }),
{
    match (start, end) {
        (Some(s), Some(e)) => (s..e).hash(&mut h.hasher),
        (Some(s), None) => (s..).hash(&mut h.hasher),
        (None, Some(e)) => (..e).hash(&mut h.hasher),
        (None, None) => (..).hash(&mut h.hasher),
    }
}

/// Hashes the `u64` range `start..=end` or `..=end` with its `Hash` impl. The contract claims only that
/// this write is added to those made.
#[verifier::external_body]
fn write_range_closed_u64(h: &mut WriteHasher, start: Option<u64>, end: u64)
    ensures
        final(h).seed() == old(h).seed(),
        final(h).written() == old(h).written().push(HashWriteView::Range { closed: true, start: u64_bound(start), end: Some(RangeBound::Int(IntBits::W64(end))) }),
{
    match start {
        Some(s) => (s..=end).hash(&mut h.hasher),
        None => (..=end).hash(&mut h.hasher),
    }
}

/// A `u128` range bound as a bound of a range key.
pub open spec fn u128_bound(o: Option<u128>) -> Option<RangeBound> {
    match o {
        Some(x) => Some(RangeBound::Int(IntBits::W128(x))),
        None => None,
    }
}

/// Hashes the `u128` range `start..end`, `start..`, `..end` or `..` with its `Hash` impl. The contract claims
/// only that this write is added to those made.
#[verifier::external_body]
fn write_range_open_u128(h: &mut WriteHasher, start: Option<u128>, end: Option<u128>)
    ensures
        final(h).seed() == old(h).seed(),
        final(h).written() == old(h).written().push(HashWriteView::Range { closed: false, start: u128_bound(start), end: u128_bound(end) }),
{
    match (start, end) {
        (Some(s), Some(e)) => (s..e).hash(&mut h.hasher),
        (Some(s), None) => (s..).hash(&mut h.hasher),
        (None, Some(e)) => (..e).hash(&mut h.hasher),
        (None, None) => (..).hash(&mut h.hasher),
    }
}

/// Hashes the `u128` range `start..=end` or `..=end` with its `Hash` impl. The contract claims only that
/// this write is added to those made.
#[verifier::external_body]
fn write_range_closed_u128(h: &mut WriteHasher, start: Option<u128>, end: u128)
    ensures
        final(h).seed() == old(h).seed(),
        final(h).written() == old(h).written().push(HashWriteView::Range { closed: true, start: u128_bound(start), end: Some(RangeBound::Int(IntBits::W128(end))) }),
{
    match start {
        Some(s) => (s..=end).hash(&mut h.hasher),
        None => (..=end).hash(&mut h.hasher),
    }
}

/// Whether a list of bit patterns is non-empty and holds one width only.
pub open spec fn is_bits_run(v: Seq<IntBits>) -> bool {
    &&& v.len() > 0
    &&& forall|i: int| 0 <= i < v.len() ==> #[trigger] int_bits_width(v[i]) == int_bits_width(v[0])
}

/// The full range `..`, which has no bound type.
pub open spec fn full_range() -> HashWriteView {
    HashWriteView::Range { closed: false, start: None, end: None }
}

/// The writes that the hasher makes for a hash write. Most are made as they are; besides:
/// - a C string is hashed as its bytes followed by a nul byte, as a `[u8]`;
/// - a run of bytes is hashed as a `[u8]`, and a list of integers of several widths as its length, then
///   each integer;
/// - a range without bounds, or with bounds of two types, is hashed as the full range `..`, and an inclusive
///   range without an end as the range from its start.
pub open spec fn effective(w: HashWriteView) -> Seq<HashWriteView> {
    match w {
        HashWriteView::CStr(b) => seq![HashWriteView::Bytes(b.push(0u8))],
        HashWriteView::IntSlice(v) => if is_bits_run(v) {
            if int_bits_width(v[0]) == 1 {
                seq![HashWriteView::Bytes(Seq::new(v.len(), |i: int| v[i]->W8_0))]
            } else {
                seq![w]
            }
        } else {
            seq![HashWriteView::Len(v.len() as usize)] + Seq::new(v.len(), |i: int| HashWriteView::Int(v[i]))
        },
        HashWriteView::Range { closed, start, end } => if start is None && end is None {
            seq![full_range()]
        } else if start is Some && end is Some && !same_bound_type(start.unwrap(), end.unwrap()) {
            seq![full_range()]
        } else if closed && end is None {
            seq![HashWriteView::Range { closed: false, start, end }]
        } else {
            seq![w]
        },
        _ => seq![w],
    }
}

/// The writes that the hasher makes for a list of hash writes, one after another.
pub open spec fn effective_writes(ws: Seq<HashWriteView>) -> Seq<HashWriteView>
    decreases ws.len(),
{
    if ws.len() == 0 {
        Seq::empty()
    } else {
        effective_writes(ws.drop_last()) + effective(ws.last())
    }
}

/// Hashes an integer with the `Hash` impl of its type.
fn write_int(h: &mut WriteHasher, b: IntBits)
    ensures
        final(h).seed() == old(h).seed(),
        final(h).written() == old(h).written().push(HashWriteView::Int(b)),
{
    match b {
        IntBits::W8(v) => write_u8(h, v),
        IntBits::W16(v) => write_u16(h, v),
        IntBits::W32(v) => write_u32(h, v),
        IntBits::W64(v) => write_u64(h, v),
        IntBits::W128(v) => write_u128(h, v),
    }
}

/// Returns the width of a list of bit patterns that is non-empty and holds one width only, and `None`
/// for any other list.
fn bits_run_width(v: &Vec<IntBits>) -> (r: Option<u8>)
    ensures
        r == (if is_bits_run(v@) { Some(int_bits_width(v@[0])) } else { None::<u8> }),
{
    if v.len() == 0 {
        return None;
    }
    let w = int_width(v[0]);
    for i in 0..v.len()
        invariant
            v@.len() > 0,
            w == int_bits_width(v@[0]),
            forall|j: int| 0 <= j < i ==> #[trigger] int_bits_width(v@[j]) == w,
    {
        if int_width(v[i]) != w {
            return None;
        }
    }
    Some(w)
}

/// The bytes of a run of bytes.
fn bytes_of(v: &Vec<IntBits>) -> (r: Vec<u8>)
    requires
        forall|i: int| 0 <= i < v@.len() ==> #[trigger] int_bits_width(v@[i]) == 1,
    ensures
        r@ == Seq::new(v@.len(), |i: int| v@[i]->W8_0),
{
    let mut r: Vec<u8> = Vec::new();
    for i in 0..v.len()
        invariant
            forall|j: int| 0 <= j < v@.len() ==> #[trigger] int_bits_width(v@[j]) == 1,
            r@.len() == i,
            forall|j: int| 0 <= j < i ==> r@[j] == #[trigger] v@[j]->W8_0,
    {
        assert(int_bits_width(v@[i as int]) == 1);
        match v[i] {
            IntBits::W8(x) => r.push(x),
            _ => r.push(0),
        }
    }
    proof {
        assert(r@ =~= Seq::new(v@.len(), |i: int| v@[i]->W8_0));
    }
    r
}

/// The values of a run of `u16` bit patterns.
fn u16s_of(v: &Vec<IntBits>) -> (r: Vec<u16>)
    requires
        forall|i: int| 0 <= i < v@.len() ==> #[trigger] int_bits_width(v@[i]) == 2,
    ensures
        r@.map_values(|x: u16| IntBits::W16(x)) == v@,
{
    let mut r: Vec<u16> = Vec::new();
    for i in 0..v.len()
        invariant
            forall|j: int| 0 <= j < v@.len() ==> #[trigger] int_bits_width(v@[j]) == 2,
            r@.len() == i,
            forall|j: int| 0 <= j < i ==> IntBits::W16(r@[j]) == #[trigger] v@[j],
    {
        assert(int_bits_width(v@[i as int]) == 2);
        match v[i] {
            IntBits::W16(x) => r.push(x),
            _ => r.push(0),
        }
    }
    proof {
        assert(r@.map_values(|x: u16| IntBits::W16(x)) =~= v@);
    }
    r
}

/// The values of a run of `u32` bit patterns.
fn u32s_of(v: &Vec<IntBits>) -> (r: Vec<u32>)
    requires
        forall|i: int| 0 <= i < v@.len() ==> #[trigger] int_bits_width(v@[i]) == 4,
    ensures
        r@.map_values(|x: u32| IntBits::W32(x)) == v@,
{
    let mut r: Vec<u32> = Vec::new();
    for i in 0..v.len()
        invariant
            forall|j: int| 0 <= j < v@.len() ==> #[trigger] int_bits_width(v@[j]) == 4,
            r@.len() == i,
            forall|j: int| 0 <= j < i ==> IntBits::W32(r@[j]) == #[trigger] v@[j],
    {
        assert(int_bits_width(v@[i as int]) == 4);
        match v[i] {
            IntBits::W32(x) => r.push(x),
            _ => r.push(0),
        }
    }
    proof {
        assert(r@.map_values(|x: u32| IntBits::W32(x)) =~= v@);
    }
    r
}

/// The values of a run of `u64` bit patterns.
fn u64s_of(v: &Vec<IntBits>) -> (r: Vec<u64>)
    requires
        forall|i: int| 0 <= i < v@.len() ==> #[trigger] int_bits_width(v@[i]) == 8,
    ensures
        r@.map_values(|x: u64| IntBits::W64(x)) == v@,
{
    let mut r: Vec<u64> = Vec::new();
    for i in 0..v.len()
        invariant
            forall|j: int| 0 <= j < v@.len() ==> #[trigger] int_bits_width(v@[j]) == 8,
            r@.len() == i,
            forall|j: int| 0 <= j < i ==> IntBits::W64(r@[j]) == #[trigger] v@[j],
    {
        assert(int_bits_width(v@[i as int]) == 8);
        match v[i] {
            IntBits::W64(x) => r.push(x),
            _ => r.push(0),
        }
    }
    proof {
        assert(r@.map_values(|x: u64| IntBits::W64(x)) =~= v@);
    }
    r
}

/// The values of a run of `u128` bit patterns.
fn u128s_of(v: &Vec<IntBits>) -> (r: Vec<u128>)
    requires
        forall|i: int| 0 <= i < v@.len() ==> #[trigger] int_bits_width(v@[i]) == 16,
    ensures
        r@.map_values(|x: u128| IntBits::W128(x)) == v@,
{
    let mut r: Vec<u128> = Vec::new();
    for i in 0..v.len()
        invariant
            forall|j: int| 0 <= j < v@.len() ==> #[trigger] int_bits_width(v@[j]) == 16,
            r@.len() == i,
            forall|j: int| 0 <= j < i ==> IntBits::W128(r@[j]) == #[trigger] v@[j],
    {
        assert(int_bits_width(v@[i as int]) == 16);
        match v[i] {
            IntBits::W128(x) => r.push(x),
            _ => r.push(0),
        }
    }
    proof {
        assert(r@.map_values(|x: u128| IntBits::W128(x)) =~= v@);
    }
    r
}

/// The `char` value of a range bound of that type.
fn char_of(o: Option<RangeBound>) -> (r: Option<char>)
    ensures
        r is Some <==> (o matches Some(RangeBound::Char(_))),
        (o is None || (o matches Some(RangeBound::Char(_)))) ==> char_bound(r) == o,
{
    match o {
        Some(RangeBound::Char(x)) => Some(x),
        _ => None,
    }
}

/// Hashes a `char` range whose present bounds are of that type.
fn write_range_char(h: &mut WriteHasher, closed: bool, start: Option<RangeBound>, end: Option<RangeBound>)
    requires
        start is None || (start matches Some(RangeBound::Char(_))),
        end is None || (end matches Some(RangeBound::Char(_))),
        closed ==> end is Some,
    ensures
        final(h).seed() == old(h).seed(),
        final(h).written() == old(h).written().push(HashWriteView::Range { closed, start, end }),
{
    let s = char_of(start);
    let e = char_of(end);
    if closed {
        match e {
            Some(x) => write_range_closed_char(h, s, x),
            None => write_range_open_char(h, s, e),
        }
    } else {
        write_range_open_char(h, s, e);
    }
}

/// The `u8` value of a range bound of that type.
fn u8_of(o: Option<RangeBound>) -> (r: Option<u8>)
    ensures
        r is Some <==> (o matches Some(RangeBound::Int(IntBits::W8(_)))),
        (o is None || (o matches Some(RangeBound::Int(IntBits::W8(_))))) ==> u8_bound(r) == o,
{
    match o {
        Some(RangeBound::Int(IntBits::W8(x))) => Some(x),
        _ => None,
    }
}

/// Hashes a `u8` range whose present bounds are of that type.
fn write_range_u8(h: &mut WriteHasher, closed: bool, start: Option<RangeBound>, end: Option<RangeBound>)
    requires
        start is None || (start matches Some(RangeBound::Int(IntBits::W8(_)))),
        end is None || (end matches Some(RangeBound::Int(IntBits::W8(_)))),
        closed ==> end is Some,
    ensures
        final(h).seed() == old(h).seed(),
        final(h).written() == old(h).written().push(HashWriteView::Range { closed, start, end }),
{
    let s = u8_of(start);
    let e = u8_of(end);
    if closed {
        match e {
            Some(x) => write_range_closed_u8(h, s, x),
            None => write_range_open_u8(h, s, e),
        }
    } else {
        write_range_open_u8(h, s, e);
    }
}

/// The `u16` value of a range bound of that type.
fn u16_of(o: Option<RangeBound>) -> (r: Option<u16>)
    ensures
        r is Some <==> (o matches Some(RangeBound::Int(IntBits::W16(_)))),
        (o is None || (o matches Some(RangeBound::Int(IntBits::W16(_))))) ==> u16_bound(r) == o,
{
    match o {
        Some(RangeBound::Int(IntBits::W16(x))) => Some(x),
        _ => None,
    }
}

/// Hashes a `u16` range whose present bounds are of that type.
fn write_range_u16(h: &mut WriteHasher, closed: bool, start: Option<RangeBound>, end: Option<RangeBound>)
    requires
        start is None || (start matches Some(RangeBound::Int(IntBits::W16(_)))),
        end is None || (end matches Some(RangeBound::Int(IntBits::W16(_)))),
        closed ==> end is Some,
    ensures
        final(h).seed() == old(h).seed(),
        final(h).written() == old(h).written().push(HashWriteView::Range { closed, start, end }),
{
    let s = u16_of(start);
    let e = u16_of(end);
    if closed {
        match e {
            Some(x) => write_range_closed_u16(h, s, x),
            None => write_range_open_u16(h, s, e),
        }
    } else {
        write_range_open_u16(h, s, e);
    }
}

/// The `u32` value of a range bound of that type.
fn u32_of(o: Option<RangeBound>) -> (r: Option<u32>)
    ensures
        r is Some <==> (o matches Some(RangeBound::Int(IntBits::W32(_)))),
        (o is None || (o matches Some(RangeBound::Int(IntBits::W32(_))))) ==> u32_bound(r) == o,
{
    match o {
        Some(RangeBound::Int(IntBits::W32(x))) => Some(x),
        _ => None,
    }
}

/// Hashes a `u32` range whose present bounds are of that type.
fn write_range_u32(h: &mut WriteHasher, closed: bool, start: Option<RangeBound>, end: Option<RangeBound>)
    requires
        start is None || (start matches Some(RangeBound::Int(IntBits::W32(_)))),
        end is None || (end matches Some(RangeBound::Int(IntBits::W32(_)))),
        closed ==> end is Some,
    ensures
        final(h).seed() == old(h).seed(),
        final(h).written() == old(h).written().push(HashWriteView::Range { closed, start, end }),
{
    let s = u32_of(start);
    let e = u32_of(end);
    if closed {
        match e {
            Some(x) => write_range_closed_u32(h, s, x),
            None => write_range_open_u32(h, s, e),
        }
    } else {
        write_range_open_u32(h, s, e);
    }
}

/// The `u64` value of a range bound of that type.
fn u64_of(o: Option<RangeBound>) -> (r: Option<u64>)
    ensures
        r is Some <==> (o matches Some(RangeBound::Int(IntBits::W64(_)))),
        (o is None || (o matches Some(RangeBound::Int(IntBits::W64(_))))) ==> u64_bound(r) == o,
{
    match o {
        Some(RangeBound::Int(IntBits::W64(x))) => Some(x),
        _ => None,
    }
}

/// Hashes a `u64` range whose present bounds are of that type.
fn write_range_u64(h: &mut WriteHasher, closed: bool, start: Option<RangeBound>, end: Option<RangeBound>)
    requires
        start is None || (start matches Some(RangeBound::Int(IntBits::W64(_)))),
        end is None || (end matches Some(RangeBound::Int(IntBits::W64(_)))),
        closed ==> end is Some,
    ensures
        final(h).seed() == old(h).seed(),
        final(h).written() == old(h).written().push(HashWriteView::Range { closed, start, end }),
{
    let s = u64_of(start);
    let e = u64_of(end);
    if closed {
        match e {
            Some(x) => write_range_closed_u64(h, s, x),
            None => write_range_open_u64(h, s, e),
        }
    } else {
        write_range_open_u64(h, s, e);
    }
}

/// The `u128` value of a range bound of that type.
fn u128_of(o: Option<RangeBound>) -> (r: Option<u128>)
    ensures
        r is Some <==> (o matches Some(RangeBound::Int(IntBits::W128(_)))),
        (o is None || (o matches Some(RangeBound::Int(IntBits::W128(_))))) ==> u128_bound(r) == o,
{
    match o {
        Some(RangeBound::Int(IntBits::W128(x))) => Some(x),
        _ => None,
    }
}

/// Hashes a `u128` range whose present bounds are of that type.
fn write_range_u128(h: &mut WriteHasher, closed: bool, start: Option<RangeBound>, end: Option<RangeBound>)
    requires
        start is None || (start matches Some(RangeBound::Int(IntBits::W128(_)))),
        end is None || (end matches Some(RangeBound::Int(IntBits::W128(_)))),
        closed ==> end is Some,
    ensures
        final(h).seed() == old(h).seed(),
        final(h).written() == old(h).written().push(HashWriteView::Range { closed, start, end }),
{
    let s = u128_of(start);
    let e = u128_of(end);
    if closed {
        match e {
            Some(x) => write_range_closed_u128(h, s, x),
            None => write_range_open_u128(h, s, e),
        }
    } else {
        write_range_open_u128(h, s, e);
    }
}

/// Hashes a range write, as `effective` says.
fn write_range(h: &mut WriteHasher, closed: bool, start: Option<RangeBound>, end: Option<RangeBound>)
    ensures
        final(h).seed() == old(h).seed(),
        final(h).written() == old(h).written() + effective(HashWriteView::Range { closed, start, end }),
{
    let ghost before = h.written();
    if start.is_none() && end.is_none() {
        write_range_full(h);
        proof {
            assert(h.written() =~= before + effective(HashWriteView::Range { closed, start, end }));
        }
        return;
    }
    if let (Some(a), Some(b)) = (start, end) {
        if !bounds_of_one_type(a, b) {
            write_range_full(h);
            proof {
                assert(h.written() =~= before + effective(HashWriteView::Range { closed, start, end }));
            }
            return;
        }
    }
    let closed_with_end = closed && end.is_some();
    let first = match start {
        Some(a) => a,
        None => end.unwrap(),
    };
    match first {
        RangeBound::Char(_) => write_range_char(h, closed_with_end, start, end),
        RangeBound::Int(IntBits::W8(_)) => write_range_u8(h, closed_with_end, start, end),
        RangeBound::Int(IntBits::W16(_)) => write_range_u16(h, closed_with_end, start, end),
        RangeBound::Int(IntBits::W32(_)) => write_range_u32(h, closed_with_end, start, end),
        RangeBound::Int(IntBits::W64(_)) => write_range_u64(h, closed_with_end, start, end),
        RangeBound::Int(IntBits::W128(_)) => write_range_u128(h, closed_with_end, start, end),
    }
    proof {
        assert(h.written() =~= before + effective(HashWriteView::Range { closed, start, end }));
    }
}

/// Makes a hash write on the hasher, as `effective` says.
fn replay(h: &mut WriteHasher, w: &HashWrite)
    ensures
        final(h).seed() == old(h).seed(),
        final(h).written() == old(h).written() + effective(w@),
{
    let ghost before = h.written();
    match w {
        HashWrite::Len(n) => write_len(h, *n),
        HashWrite::Str(s) => write_str(h, s.as_str()),
        HashWrite::Bytes(b) => write_bytes(h, b.as_slice()),
        HashWrite::CStr(b) => {
            let mut with_nul = b.clone();
            with_nul.push(0u8);
            proof {
                assert(with_nul@ =~= b@.push(0u8));
            }
            write_bytes(h, with_nul.as_slice());
        },
        HashWrite::Char(c) => write_char(h, *c),
        HashWrite::Bool(b) => write_bool(h, *b),
        HashWrite::Int(b) => write_int(h, *b),
        HashWrite::IntSlice(v) => {
            match bits_run_width(v) {
                Some(1) => {
                    let b = bytes_of(v);
                    write_bytes(h, b.as_slice());
                },
                Some(2) => {
                    let x = u16s_of(v);
                    write_u16s(h, x.as_slice());
                },
                Some(4) => {
                    let x = u32s_of(v);
                    write_u32s(h, x.as_slice());
                },
                Some(8) => {
                    let x = u64s_of(v);
                    write_u64s(h, x.as_slice());
                },
                Some(_) => {
                    proof {
                        assert(int_bits_width(v@[0]) == 16);
                    }
                    let x = u128s_of(v);
                    write_u128s(h, x.as_slice());
                },
                None => {
                    write_len(h, v.len());
                    for i in 0..v.len()
                        invariant
                            h.seed() == old(h).seed(),
                            h.written() == before.push(HashWriteView::Len(v@.len() as usize))
                                + Seq::new(i as nat, |j: int| HashWriteView::Int(v@[j])),
                    {
                        let ghost mid = h.written();
                        write_int(h, v[i]);
                        proof {
                            assert(Seq::new(i as nat, |j: int| HashWriteView::Int(v@[j])).push(HashWriteView::Int(v@[i as int]))
                                =~= Seq::new((i + 1) as nat, |j: int| HashWriteView::Int(v@[j])));
                            assert(h.written() =~= before.push(HashWriteView::Len(v@.len() as usize))
                                + Seq::new((i + 1) as nat, |j: int| HashWriteView::Int(v@[j])));
                        }
                    }
                },
            }
        },
        HashWrite::Range { closed, start, end } => {
            write_range(h, *closed, *start, *end);
            return;
        },
    }
    proof {
        assert(h.written() =~= before + effective(w@));
    }
}

impl SeededHash for HashKey {
    /// foldhash's hash after the key's hash writes, as the hasher makes them.
    open spec fn seeded_hash(&self, seed: u64) -> u64 {
        foldhash_writes(effective_writes(spec_key_writes(self@)), seed)
    }

    fn hash_seeded(&self, seed: u64) -> (h: u64) {
        let writes = hash_key_writes(self);
        let expanded = expand_seed(seed);
        let mut hasher = start(&expanded);
        proof {
            assert(write_views(writes@).take(0) =~= Seq::<HashWriteView>::empty());
            assert(effective_writes(Seq::<HashWriteView>::empty()) =~= Seq::<HashWriteView>::empty());
        }
        for i in 0..writes.len()
            invariant
                hasher.seed() == seed,
                hasher.written() == effective_writes(write_views(writes@).take(i as int)),
        {
            replay(&mut hasher, &writes[i]);
            proof {
                let ws = write_views(writes@);
                assert(ws.take(i + 1).drop_last() =~= ws.take(i as int));
                assert(ws.take(i + 1).last() == writes@[i as int]@);
            }
        }
        proof {
            assert(write_views(writes@).take(writes@.len() as int) =~= write_views(writes@));
        }
        finish(&hasher)
    }
}

/// Whether a key written as an expression stands for a run-time key: a string, byte string, character,
/// `bool` or unsigned integer of the same value.
pub open spec fn stands_for(k: HashKeyView, rk: KeyView) -> bool {
    match (k, rk) {
        (HashKeyView::Str(a), KeyView::Str(b)) => a == b,
        (HashKeyView::Bytes(a), KeyView::Bytes(b)) => a == b,
        (HashKeyView::Char(a), KeyView::Char(b)) => a == b,
        (HashKeyView::Bool(a), KeyView::Bool(b)) => a == b,
        (HashKeyView::Int(IntBits::W8(a)), KeyView::U8(b)) => a == b,
        (HashKeyView::Int(IntBits::W16(a)), KeyView::U16(b)) => a == b,
        (HashKeyView::Int(IntBits::W32(a)), KeyView::U32(b)) => a == b,
        (HashKeyView::Int(IntBits::W64(a)), KeyView::U64(b)) => a == b,
        (HashKeyView::Int(IntBits::W128(a)), KeyView::U128(b)) => a == b,
        _ => false,
    }
}

/// A key written as an expression hashes under every seed as the run-time key it stands for: each is one
/// write of the same value through the same `Hash` impl.
pub proof fn lemma_key_hash_agrees(k: HashKey, rk: KeyView, seed: u64)
    requires
        stands_for(k@, rk),
    ensures
        k.seeded_hash(seed) == key_hash(rk, seed),
{
    let w = spec_key_writes(k@);
    assert(w.len() == 1);
    assert(w.drop_last() =~= Seq::<HashWriteView>::empty());
    assert(effective_writes(w) == effective_writes(Seq::<HashWriteView>::empty()) + effective(w.last()));
    assert(effective_writes(w) =~= w);
}

/// A string key written as an expression hashes as the run-time string key: one `str` write, with no
/// length before it.
pub proof fn lemma_str_key_hash(s: String, seed: u64)
    ensures
        HashKey::Str(s).seeded_hash(seed) == key_hash(KeyView::Str(s@), seed),
        HashKey::Str(s).seeded_hash(seed) == foldhash_writes(seq![HashWriteView::Str(s@)], seed),
{
    lemma_key_hash_agrees(HashKey::Str(s), KeyView::Str(s@), seed);
}

/// The tables that a construction over keys written as expressions gives hold at run time for the keys
/// they stand for: with the run-time entries arranged in the construction's order, the seed and tables make
/// up a map of those entries.
pub proof fn lemma_parts_hold_at_run_time<V>(keys: Seq<HashKey>, st: MapState, entries: Seq<(Key, V)>)
    requires
        construction_matches(keys, Ok(st)),
        keys.len() == entries.len(),
        entries.len() <= MAX_LEN,
        forall|i: int| 0 <= i < keys.len() ==> #[trigger] stands_for(keys[i]@, entries[i].0@),
    ensures
        parts_valid(st.seed, gathered_entries(entries, st.indices@), st.pilots@, st.remap@),
{
    assert forall|i: int, seed: u64| 0 <= i < keys.len() implies #[trigger] keys[i].seeded_hash(seed)
        == #[trigger] entries[i].seeded_hash(seed) by {
        assert(stands_for(keys[i]@, entries[i].0@));
        lemma_key_hash_agrees(keys[i], entries[i].0@, seed);
    }
    lemma_same_hashes_succeed(keys, entries, st);
    lemma_construction_parts_valid(entries, st);
}

} // verus!
