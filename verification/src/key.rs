//! Keys of maps and sets, and how they hash.

use core::hash::{Hash, Hasher};
use foldhash::fast::FoldHasher;
use foldhash::SharedSeed;
use crate::key_expr::HashWriteView;
use crate::literal::IntBits;
use crate::write_hasher::foldhash_writes;
use vstd::prelude::*;

verus! {

/// A key of a map, or a value of a set.
///
/// A key hashes as the value it holds, so keys of different kinds that hold the same bits (such as
/// `U32(1)` and `I32(1)`) feed the hasher the same bytes, and a map may fail to tell them apart: the keys
/// of one map are meant to be of one kind.
#[derive(Clone, Debug, PartialEq, Eq, Hash)]
pub enum Key {
    Bool(bool),
    Char(char),
    U8(u8),
    U16(u16),
    U32(u32),
    U64(u64),
    I32(i32),
    I8(i8),
    I16(i16),
    I64(i64),
    U128(u128),
    Usize(usize),
    Str(String),
    Bytes(Vec<u8>),
}

/// The mathematical value of a [`Key`].
pub enum KeyView {
    Bool(bool),
    Char(char),
    U8(u8),
    U16(u16),
    U32(u32),
    U64(u64),
    I32(i32),
    I8(i8),
    I16(i16),
    I64(i64),
    U128(u128),
    Usize(usize),
    Str(Seq<char>),
    Bytes(Seq<u8>),
}

impl View for Key {
    type V = KeyView;

    open spec fn view(&self) -> KeyView {
        match self {
            Key::Bool(b) => KeyView::Bool(*b),
            Key::Char(c) => KeyView::Char(*c),
            Key::U8(v) => KeyView::U8(*v),
            Key::U16(v) => KeyView::U16(*v),
            Key::U32(v) => KeyView::U32(*v),
            Key::U64(v) => KeyView::U64(*v),
            Key::I32(v) => KeyView::I32(*v),
            Key::I8(v) => KeyView::I8(*v),
            Key::I16(v) => KeyView::I16(*v),
            Key::I64(v) => KeyView::I64(*v),
            Key::U128(v) => KeyView::U128(*v),
            Key::Usize(v) => KeyView::Usize(*v),
            Key::Str(s) => KeyView::Str(s@),
            Key::Bytes(b) => KeyView::Bytes(b@),
        }
    }
}

/// foldhash's hash of a `bool` under the per-hasher seed `seed` and the shared seed expanded from `seed`.
/// It is fixed for the target the crate is built for; foldhash multiplies differently where pointers are
/// 32 bits wide, so it may differ between targets.
/// That is the hash after this one write, as `foldhash_writes` names it.
pub open spec fn foldhash_bool(value: bool, seed: u64) -> u64 {
    foldhash_writes(seq![HashWriteView::Bool(value)], seed)
}

/// Hashes a `bool` with `foldhash::fast::FoldHasher::with_seed(seed, &SharedSeed::from_u64(seed))`
/// through its `Hash` impl, then `finish`. The contract claims only that the result is a fixed
/// function of `value` and `seed` (foldhash's arithmetic is fixed for the target the crate is built for).
#[verifier::external_body]
fn hash_bool(value: bool, seed: u64) -> (h: u64)
    ensures
        h == foldhash_bool(value, seed),
{
    let shared = SharedSeed::from_u64(seed);
    let mut hasher = FoldHasher::with_seed(seed, &shared);
    value.hash(&mut hasher);
    hasher.finish()
}

/// foldhash's hash of a `char` under the per-hasher seed `seed` and the shared seed expanded from `seed`.
/// It is fixed for the target the crate is built for; foldhash multiplies differently where pointers are
/// 32 bits wide, so it may differ between targets.
/// That is the hash after this one write, as `foldhash_writes` names it.
pub open spec fn foldhash_char(value: char, seed: u64) -> u64 {
    foldhash_writes(seq![HashWriteView::Char(value)], seed)
}

/// Hashes a `char` with `foldhash::fast::FoldHasher::with_seed(seed, &SharedSeed::from_u64(seed))`
/// through its `Hash` impl, then `finish`. The contract claims only that the result is a fixed
/// function of `value` and `seed` (foldhash's arithmetic is fixed for the target the crate is built for).
#[verifier::external_body]
fn hash_char(value: char, seed: u64) -> (h: u64)
    ensures
        h == foldhash_char(value, seed),
{
    let shared = SharedSeed::from_u64(seed);
    let mut hasher = FoldHasher::with_seed(seed, &shared);
    value.hash(&mut hasher);
    hasher.finish()
}

/// foldhash's hash of a `u8` under the per-hasher seed `seed` and the shared seed expanded from `seed`.
/// It is fixed for the target the crate is built for; foldhash multiplies differently where pointers are
/// 32 bits wide, so it may differ between targets.
/// That is the hash after this one write, as `foldhash_writes` names it.
pub open spec fn foldhash_u8(value: u8, seed: u64) -> u64 {
    foldhash_writes(seq![HashWriteView::Int(IntBits::W8(value))], seed)
}

/// Hashes a `u8` with `foldhash::fast::FoldHasher::with_seed(seed, &SharedSeed::from_u64(seed))`
/// through its `Hash` impl, then `finish`. The contract claims only that the result is a fixed
/// function of `value` and `seed` (foldhash's arithmetic is fixed for the target the crate is built for).
#[verifier::external_body]
fn hash_u8(value: u8, seed: u64) -> (h: u64)
    ensures
        h == foldhash_u8(value, seed),
{
    let shared = SharedSeed::from_u64(seed);
    let mut hasher = FoldHasher::with_seed(seed, &shared);
    value.hash(&mut hasher);
    hasher.finish()
}

/// foldhash's hash of a `u16` under the per-hasher seed `seed` and the shared seed expanded from `seed`.
/// It is fixed for the target the crate is built for; foldhash multiplies differently where pointers are
/// 32 bits wide, so it may differ between targets.
/// That is the hash after this one write, as `foldhash_writes` names it.
pub open spec fn foldhash_u16(value: u16, seed: u64) -> u64 {
    foldhash_writes(seq![HashWriteView::Int(IntBits::W16(value))], seed)
}

/// Hashes a `u16` with `foldhash::fast::FoldHasher::with_seed(seed, &SharedSeed::from_u64(seed))`
/// through its `Hash` impl, then `finish`. The contract claims only that the result is a fixed
/// function of `value` and `seed` (foldhash's arithmetic is fixed for the target the crate is built for).
#[verifier::external_body]
fn hash_u16(value: u16, seed: u64) -> (h: u64)
    ensures
        h == foldhash_u16(value, seed),
{
    let shared = SharedSeed::from_u64(seed);
    let mut hasher = FoldHasher::with_seed(seed, &shared);
    value.hash(&mut hasher);
    hasher.finish()
}

/// foldhash's hash of a `u32` under the per-hasher seed `seed` and the shared seed expanded from `seed`.
/// It is fixed for the target the crate is built for; foldhash multiplies differently where pointers are
/// 32 bits wide, so it may differ between targets.
/// That is the hash after this one write, as `foldhash_writes` names it.
pub open spec fn foldhash_u32(value: u32, seed: u64) -> u64 {
    foldhash_writes(seq![HashWriteView::Int(IntBits::W32(value))], seed)
}

/// Hashes a `u32` with `foldhash::fast::FoldHasher::with_seed(seed, &SharedSeed::from_u64(seed))`
/// through its `Hash` impl, then `finish`. The contract claims only that the result is a fixed
/// function of `value` and `seed` (foldhash's arithmetic is fixed for the target the crate is built for).
#[verifier::external_body]
fn hash_u32(value: u32, seed: u64) -> (h: u64)
    ensures
        h == foldhash_u32(value, seed),
{
    let shared = SharedSeed::from_u64(seed);
    let mut hasher = FoldHasher::with_seed(seed, &shared);
    value.hash(&mut hasher);
    hasher.finish()
}

/// foldhash's hash of a `u64` under the per-hasher seed `seed` and the shared seed expanded from `seed`.
/// It is fixed for the target the crate is built for; foldhash multiplies differently where pointers are
/// 32 bits wide, so it may differ between targets.
/// That is the hash after this one write, as `foldhash_writes` names it.
pub open spec fn foldhash_u64(value: u64, seed: u64) -> u64 {
    foldhash_writes(seq![HashWriteView::Int(IntBits::W64(value))], seed)
}

/// Hashes a `u64` with `foldhash::fast::FoldHasher::with_seed(seed, &SharedSeed::from_u64(seed))`
/// through its `Hash` impl, then `finish`. The contract claims only that the result is a fixed
/// function of `value` and `seed` (foldhash's arithmetic is fixed for the target the crate is built for).
#[verifier::external_body]
fn hash_u64(value: u64, seed: u64) -> (h: u64)
    ensures
        h == foldhash_u64(value, seed),
{
    let shared = SharedSeed::from_u64(seed);
    let mut hasher = FoldHasher::with_seed(seed, &shared);
    value.hash(&mut hasher);
    hasher.finish()
}

/// foldhash's hash of a `i32` under the per-hasher seed `seed` and the shared seed expanded from `seed`.
/// It is fixed for the target the crate is built for; foldhash multiplies differently where pointers are
/// 32 bits wide, so it may differ between targets.
pub uninterp spec fn foldhash_i32(value: i32, seed: u64) -> u64;

/// Hashes a `i32` with `foldhash::fast::FoldHasher::with_seed(seed, &SharedSeed::from_u64(seed))`
/// through its `Hash` impl, then `finish`. The contract claims only that the result is a fixed
/// function of `value` and `seed` (foldhash's arithmetic is fixed for the target the crate is built for).
#[verifier::external_body]
fn hash_i32(value: i32, seed: u64) -> (h: u64)
    ensures
        h == foldhash_i32(value, seed),
{
    let shared = SharedSeed::from_u64(seed);
    let mut hasher = FoldHasher::with_seed(seed, &shared);
    value.hash(&mut hasher);
    hasher.finish()
}

/// foldhash's hash of a `i8` under the per-hasher seed `seed` and the shared seed expanded from `seed`.
/// It is fixed for the target the crate is built for; foldhash multiplies differently where pointers are
/// 32 bits wide, so it may differ between targets.
pub uninterp spec fn foldhash_i8(value: i8, seed: u64) -> u64;

/// Hashes a `i8` with `foldhash::fast::FoldHasher::with_seed(seed, &SharedSeed::from_u64(seed))`
/// through its `Hash` impl, then `finish`. The contract claims only that the result is a fixed
/// function of `value` and `seed` (foldhash's arithmetic is fixed for the target the crate is built for).
#[verifier::external_body]
fn hash_i8(value: i8, seed: u64) -> (h: u64)
    ensures
        h == foldhash_i8(value, seed),
{
    let shared = SharedSeed::from_u64(seed);
    let mut hasher = FoldHasher::with_seed(seed, &shared);
    value.hash(&mut hasher);
    hasher.finish()
}

/// foldhash's hash of a `i16` under the per-hasher seed `seed` and the shared seed expanded from `seed`.
/// It is fixed for the target the crate is built for; foldhash multiplies differently where pointers are
/// 32 bits wide, so it may differ between targets.
pub uninterp spec fn foldhash_i16(value: i16, seed: u64) -> u64;

/// Hashes a `i16` with `foldhash::fast::FoldHasher::with_seed(seed, &SharedSeed::from_u64(seed))`
/// through its `Hash` impl, then `finish`. The contract claims only that the result is a fixed
/// function of `value` and `seed` (foldhash's arithmetic is fixed for the target the crate is built for).
#[verifier::external_body]
fn hash_i16(value: i16, seed: u64) -> (h: u64)
    ensures
        h == foldhash_i16(value, seed),
{
    let shared = SharedSeed::from_u64(seed);
    let mut hasher = FoldHasher::with_seed(seed, &shared);
    value.hash(&mut hasher);
    hasher.finish()
}

/// foldhash's hash of a `i64` under the per-hasher seed `seed` and the shared seed expanded from `seed`.
/// It is fixed for the target the crate is built for; foldhash multiplies differently where pointers are
/// 32 bits wide, so it may differ between targets.
pub uninterp spec fn foldhash_i64(value: i64, seed: u64) -> u64;

/// Hashes a `i64` with `foldhash::fast::FoldHasher::with_seed(seed, &SharedSeed::from_u64(seed))`
/// through its `Hash` impl, then `finish`. The contract claims only that the result is a fixed
/// function of `value` and `seed` (foldhash's arithmetic is fixed for the target the crate is built for).
#[verifier::external_body]
fn hash_i64(value: i64, seed: u64) -> (h: u64)
    ensures
        h == foldhash_i64(value, seed),
{
    let shared = SharedSeed::from_u64(seed);
    let mut hasher = FoldHasher::with_seed(seed, &shared);
    value.hash(&mut hasher);
    hasher.finish()
}

/// foldhash's hash of a `u128` under the per-hasher seed `seed` and the shared seed expanded from `seed`.
/// It is fixed for the target the crate is built for; foldhash multiplies differently where pointers are
/// 32 bits wide, so it may differ between targets.
/// That is the hash after this one write, as `foldhash_writes` names it.
pub open spec fn foldhash_u128(value: u128, seed: u64) -> u64 {
    foldhash_writes(seq![HashWriteView::Int(IntBits::W128(value))], seed)
}

/// Hashes a `u128` with `foldhash::fast::FoldHasher::with_seed(seed, &SharedSeed::from_u64(seed))`
/// through its `Hash` impl, then `finish`. The contract claims only that the result is a fixed
/// function of `value` and `seed` (foldhash's arithmetic is fixed for the target the crate is built for).
#[verifier::external_body]
fn hash_u128(value: u128, seed: u64) -> (h: u64)
    ensures
        h == foldhash_u128(value, seed),
{
    let shared = SharedSeed::from_u64(seed);
    let mut hasher = FoldHasher::with_seed(seed, &shared);
    value.hash(&mut hasher);
    hasher.finish()
}

/// foldhash's hash of a `usize` under the per-hasher seed `seed` and the shared seed expanded from `seed`.
/// It is fixed for the target the crate is built for; foldhash multiplies differently where pointers are
/// 32 bits wide, so it may differ between targets.
/// A `usize` also hashes as a value of its own width.
pub uninterp spec fn foldhash_usize(value: usize, seed: u64) -> u64;

/// Hashes a `usize` with `foldhash::fast::FoldHasher::with_seed(seed, &SharedSeed::from_u64(seed))`
/// through its `Hash` impl, then `finish`. The contract claims only that the result is a fixed
/// function of `value` and `seed` (foldhash's arithmetic is fixed for the target the crate is built for).
#[verifier::external_body]
fn hash_usize(value: usize, seed: u64) -> (h: u64)
    ensures
        h == foldhash_usize(value, seed),
{
    let shared = SharedSeed::from_u64(seed);
    let mut hasher = FoldHasher::with_seed(seed, &shared);
    value.hash(&mut hasher);
    hasher.finish()
}

/// foldhash's hash of a byte slice with the given bytes, under the per-hasher seed `seed` and the shared
/// seed expanded from `seed`. It is fixed for the target the crate is built for; foldhash multiplies
/// differently where pointers are 32 bits wide, and a slice hashes its length as a `usize`, so it may differ
/// between targets.
/// That is the hash after this one write, as `foldhash_writes` names it.
pub open spec fn foldhash_bytes(value: Seq<u8>, seed: u64) -> u64 {
    foldhash_writes(seq![HashWriteView::Bytes(value)], seed)
}

/// Hashes a `&[u8]` with `foldhash::fast::FoldHasher::with_seed(seed, &SharedSeed::from_u64(seed))`
/// through its `Hash` impl, then `finish`. The contract claims only that the result is a fixed
/// function of the bytes and `seed` (foldhash's arithmetic is fixed for the target the crate is built for).
#[verifier::external_body]
fn hash_bytes(value: &[u8], seed: u64) -> (h: u64)
    ensures
        h == foldhash_bytes(value@, seed),
{
    let shared = SharedSeed::from_u64(seed);
    let mut hasher = FoldHasher::with_seed(seed, &shared);
    value.hash(&mut hasher);
    hasher.finish()
}

/// foldhash's hash of a string slice with the given characters, under the per-hasher seed `seed`
/// and the shared seed expanded from `seed`.
/// That is the hash after this one write, as `foldhash_writes` names it.
pub open spec fn foldhash_str(value: Seq<char>, seed: u64) -> u64 {
    foldhash_writes(seq![HashWriteView::Str(value)], seed)
}

/// Hashes a `&str` with `foldhash::fast::FoldHasher::with_seed(seed, &SharedSeed::from_u64(seed))`
/// through its `Hash` impl, then `finish`. The contract claims only that the result is a fixed
/// function of the characters and `seed` (foldhash's arithmetic is fixed for the target the crate is built for).
#[verifier::external_body]
fn hash_str(value: &str, seed: u64) -> (h: u64)
    ensures
        h == foldhash_str(value@, seed),
{
    let shared = SharedSeed::from_u64(seed);
    let mut hasher = FoldHasher::with_seed(seed, &shared);
    value.hash(&mut hasher);
    hasher.finish()
}

/// The hash of a key under `seed`: the hash of the value that the key holds.
pub open spec fn key_hash(key: KeyView, seed: u64) -> u64 {
    match key {
        KeyView::Bool(v) => foldhash_bool(v, seed),
        KeyView::Char(v) => foldhash_char(v, seed),
        KeyView::U8(v) => foldhash_u8(v, seed),
        KeyView::U16(v) => foldhash_u16(v, seed),
        KeyView::U32(v) => foldhash_u32(v, seed),
        KeyView::U64(v) => foldhash_u64(v, seed),
        KeyView::I32(v) => foldhash_i32(v, seed),
        KeyView::I8(v) => foldhash_i8(v, seed),
        KeyView::I16(v) => foldhash_i16(v, seed),
        KeyView::I64(v) => foldhash_i64(v, seed),
        KeyView::U128(v) => foldhash_u128(v, seed),
        KeyView::Usize(v) => foldhash_usize(v, seed),
        KeyView::Str(s) => foldhash_str(s, seed),
        KeyView::Bytes(b) => foldhash_bytes(b, seed),
    }
}

/// Hashes a key under `seed`.
pub fn hash_key(key: &Key, seed: u64) -> (h: u64)
    ensures
        h == key_hash(key@, seed),
{
    match key {
        Key::Bool(v) => hash_bool(*v, seed),
        Key::Char(v) => hash_char(*v, seed),
        Key::U8(v) => hash_u8(*v, seed),
        Key::U16(v) => hash_u16(*v, seed),
        Key::U32(v) => hash_u32(*v, seed),
        Key::U64(v) => hash_u64(*v, seed),
        Key::I32(v) => hash_i32(*v, seed),
        Key::I8(v) => hash_i8(*v, seed),
        Key::I16(v) => hash_i16(*v, seed),
        Key::I64(v) => hash_i64(*v, seed),
        Key::U128(v) => hash_u128(*v, seed),
        Key::Usize(v) => hash_usize(*v, seed),
        Key::Str(s) => hash_str(s.as_str(), seed),
        Key::Bytes(b) => hash_bytes(b.as_slice(), seed),
    }
}

/// Items that hash under a seed: keys themselves, and key-value entries through their keys.
pub trait SeededHash {
    /// The hash of the item under `seed`.
    spec fn seeded_hash(&self, seed: u64) -> u64;

    /// Hashes the item under `seed`.
    fn hash_seeded(&self, seed: u64) -> (h: u64)
        ensures
            h == self.seeded_hash(seed),
    ;
}

impl SeededHash for Key {
    open spec fn seeded_hash(&self, seed: u64) -> u64 {
        key_hash(self@, seed)
    }

    fn hash_seeded(&self, seed: u64) -> (h: u64) {
        hash_key(self, seed)
    }
}

impl<V> SeededHash for (Key, V) {
    open spec fn seeded_hash(&self, seed: u64) -> u64 {
        key_hash(self.0@, seed)
    }

    fn hash_seeded(&self, seed: u64) -> (h: u64) {
        hash_key(&self.0, seed)
    }
}

/// Copies a key.
pub fn copy_key(key: &Key) -> (r: Key)
    ensures
        r@ == key@,
{
    match key {
        Key::Bool(v) => Key::Bool(*v),
        Key::Char(v) => Key::Char(*v),
        Key::U8(v) => Key::U8(*v),
        Key::U16(v) => Key::U16(*v),
        Key::U32(v) => Key::U32(*v),
        Key::U64(v) => Key::U64(*v),
        Key::I32(v) => Key::I32(*v),
        Key::I8(v) => Key::I8(*v),
        Key::I16(v) => Key::I16(*v),
        Key::I64(v) => Key::I64(*v),
        Key::U128(v) => Key::U128(*v),
        Key::Usize(v) => Key::Usize(*v),
        Key::Str(s) => Key::Str(s.clone()),
        Key::Bytes(b) => {
            let c = b.clone();
            proof {
                assert(c@ =~= b@);
            }
            Key::Bytes(c)
        },
    }
}

/// Whether two byte vectors are equal.
pub fn bytes_eq(a: &Vec<u8>, b: &Vec<u8>) -> (r: bool)
    ensures
        r == (a@ == b@),
{
    if a.len() != b.len() {
        return false;
    }
    for i in 0..a.len()
        invariant
            a@.len() == b@.len(),
            forall|j: int| 0 <= j < i ==> a@[j] == b@[j],
    {
        if a[i] != b[i] {
            return false;
        }
    }
    proof {
        assert(a@ =~= b@);
    }
    true
}

/// Whether two keys are equal.
pub fn key_eq(a: &Key, b: &Key) -> (r: bool)
    ensures
        r == (a@ == b@),
{
    match (a, b) {
        (Key::Bool(x), Key::Bool(y)) => *x == *y,
        (Key::Char(x), Key::Char(y)) => *x == *y,
        (Key::U8(x), Key::U8(y)) => *x == *y,
        (Key::U16(x), Key::U16(y)) => *x == *y,
        (Key::U32(x), Key::U32(y)) => *x == *y,
        (Key::U64(x), Key::U64(y)) => *x == *y,
        (Key::I32(x), Key::I32(y)) => *x == *y,
        (Key::I8(x), Key::I8(y)) => *x == *y,
        (Key::I16(x), Key::I16(y)) => *x == *y,
        (Key::I64(x), Key::I64(y)) => *x == *y,
        (Key::U128(x), Key::U128(y)) => *x == *y,
        (Key::Usize(x), Key::Usize(y)) => *x == *y,
        (Key::Str(x), Key::Str(y)) => *x == *y,
        (Key::Bytes(x), Key::Bytes(y)) => bytes_eq(x, y),
        _ => false,
    }
}

} // verus!
