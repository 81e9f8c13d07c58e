//! Keys written as Rust expressions: which value each one stands for, as the bit patterns, strings and
//! sequences that decide its hash.

use crate::construct::{construction_matches, generate, ConstructError, MapState};
use crate::kernel::MAX_LEN;
use crate::key::bytes_eq;
use crate::literal::{
    bits_of, int_bits, int_bits_value, int_bits_width, lemma_width_pows, max_positive, negative_bits, positive_bits,
    IntBits,
};
use vstd::arithmetic::power2::{lemma_pow2_adds, lemma_pow2_pos, lemma_pow2_strictly_increases, pow2};
use vstd::prelude::*;

verus! {

/// A key, as the values that decide how it hashes.
#[derive(Debug, PartialEq, Eq)]
pub enum HashKey {
    Str(String),
    Bytes(Vec<u8>),
    CStr(Vec<u8>),
    Char(char),
    Bool(bool),
    Int(IntBits),
    Tuple(Vec<HashKey>),
    List(Vec<HashKey>),
    Range { closed: bool, start: Option<RangeBound>, end: Option<RangeBound> },
}

/// A bound of a range key: an integer or a character.
#[derive(Clone, Copy, Debug, PartialEq, Eq, Structural)]
pub enum RangeBound {
    Int(IntBits),
    Char(char),
}

/// The mathematical value of a [`HashKey`].
#[verifier::ext_equal]
pub enum HashKeyView {
    Str(Seq<char>),
    Bytes(Seq<u8>),
    CStr(Seq<u8>),
    Char(char),
    Bool(bool),
    Int(IntBits),
    Tuple(Seq<HashKeyView>),
    List(Seq<HashKeyView>),
    Range { closed: bool, start: Option<RangeBound>, end: Option<RangeBound> },
}

/// The values of a list of keys.
pub open spec fn views(keys: Seq<HashKey>) -> Seq<HashKeyView>
    decreases keys,
{
    if keys.len() == 0 {
        Seq::empty()
    } else {
        views(keys.subrange(0, keys.len() - 1)).push(keys[keys.len() - 1].view())
    }
}

impl View for HashKey {
    type V = HashKeyView;

    open spec fn view(&self) -> HashKeyView
        decreases self,
    {
        match self {
            HashKey::Str(s) => HashKeyView::Str(s@),
            HashKey::Bytes(b) => HashKeyView::Bytes(b@),
            HashKey::CStr(b) => HashKeyView::CStr(b@),
            HashKey::Char(c) => HashKeyView::Char(*c),
            HashKey::Bool(b) => HashKeyView::Bool(*b),
            HashKey::Int(i) => HashKeyView::Int(*i),
            HashKey::Tuple(items) => HashKeyView::Tuple(views(items@)),
            HashKey::List(items) => HashKeyView::List(views(items@)),
            HashKey::Range { closed, start, end } => HashKeyView::Range { closed: *closed, start: *start, end: *end },
        }
    }
}


/// A literal written as a key.
pub enum KeyLit {
    Str(String),
    ByteStr(Vec<u8>),
    CStr(Vec<u8>),
    Char(char),
    Bool(bool),
    Byte(u8),
    /// An integer literal: its digits' values in `radix`, most significant first, and its type suffix
    /// (empty when it has none).
    Int { radix: u32, digits: Vec<u8>, suffix: String },
    Float,
    Other,
}

/// A key written as a Rust expression.
pub enum KeyExpr {
    Lit(KeyLit),
    Neg(Box<KeyExpr>),
    Paren(Box<KeyExpr>),
    Group(Box<KeyExpr>),
    Ref(Box<KeyExpr>),
    Tuple(Vec<KeyExpr>),
    Array(Vec<KeyExpr>),
    Repeat { element: Box<KeyExpr>, len: Box<KeyExpr> },
    Range { closed: bool, start: Option<Box<KeyExpr>>, end: Option<Box<KeyExpr>> },
    Closure,
    Path,
    Cast,
    Other,
}

/// Why an expression cannot be a key.
#[derive(Clone, Copy, Debug, PartialEq, Eq, Structural)]
pub enum KeyError {
    /// An integer literal without a type suffix.
    UnsuffixedInt,
    /// An integer literal whose suffix is not an integer type.
    UnknownIntSuffix,
    /// An integer literal whose digits are not digits of its radix.
    MalformedInt,
    /// An integer literal too large for the number it is read as.
    IntTooLarge,
    /// An integer literal out of the range of its type.
    IntOutOfRange,
    FloatKey,
    UnsupportedLiteral,
    /// A negation of something other than an integer literal.
    NegatedNonInt,
    NegatedUnsigned,
    /// `[]`, which does not say its element type.
    EmptyArray,
    NegativeRepeatCount,
    /// A repeat count other than an integer literal.
    NonLiteralRepeatCount,
    /// A range bound other than an integer or a character.
    RangeBoundKind,
    /// Range bounds of two different types.
    RangeBoundMismatch,
    ClosureKey,
    /// A named constant, path or enum variant, which only its evaluation would give a value.
    PathKey,
    CastKey,
    UnsupportedKey,
}

/// The width in bytes of `usize` on the target the crate is built for.
pub open spec fn pointer_bytes() -> u8 {
    (usize::BITS / 8) as u8
}

/// Whether an integer suffix names a signed type, and its width in bytes.
pub open spec fn spec_int_type(suffix: Seq<char>, pointer_bytes: u8) -> Option<(bool, u8)> {
    if suffix == "u8"@ {
        Some((false, 1u8))
    } else if suffix == "u16"@ {
        Some((false, 2u8))
    } else if suffix == "u32"@ {
        Some((false, 4u8))
    } else if suffix == "u64"@ {
        Some((false, 8u8))
    } else if suffix == "u128"@ {
        Some((false, 16u8))
    } else if suffix == "usize"@ {
        Some((false, pointer_bytes))
    } else if suffix == "i8"@ {
        Some((true, 1u8))
    } else if suffix == "i16"@ {
        Some((true, 2u8))
    } else if suffix == "i32"@ {
        Some((true, 4u8))
    } else if suffix == "i64"@ {
        Some((true, 8u8))
    } else if suffix == "i128"@ {
        Some((true, 16u8))
    } else if suffix == "isize"@ {
        Some((true, pointer_bytes))
    } else {
        None
    }
}

/// Whether two strings are equal.
fn same_str(a: &str, b: &str) -> (r: bool)
    ensures
        r == (a@ == b@),
{
    a.to_owned() == b.to_owned()
}

/// Returns whether an integer literal's suffix names a signed type, and its width in bytes; `None` when it
/// names no integer type. `usize` and `isize` are `pointer_bytes` wide.
pub fn int_type(suffix: &str, pointer_bytes: u8) -> (r: Option<(bool, u8)>)
    ensures
        r == spec_int_type(suffix@, pointer_bytes),
{
    if same_str(suffix, "u8") {
        Some((false, 1))
    } else if same_str(suffix, "u16") {
        Some((false, 2))
    } else if same_str(suffix, "u32") {
        Some((false, 4))
    } else if same_str(suffix, "u64") {
        Some((false, 8))
    } else if same_str(suffix, "u128") {
        Some((false, 16))
    } else if same_str(suffix, "usize") {
        Some((false, pointer_bytes))
    } else if same_str(suffix, "i8") {
        Some((true, 1))
    } else if same_str(suffix, "i16") {
        Some((true, 2))
    } else if same_str(suffix, "i32") {
        Some((true, 4))
    } else if same_str(suffix, "i64") {
        Some((true, 8))
    } else if same_str(suffix, "i128") {
        Some((true, 16))
    } else if same_str(suffix, "isize") {
        Some((true, pointer_bytes))
    } else {
        None
    }
}

/// The number that digits in `radix` spell, most significant first.
pub open spec fn digits_value(radix: nat, digits: Seq<u8>) -> nat
    decreases digits.len(),
{
    if digits.len() == 0 {
        0
    } else {
        digits_value(radix, digits.drop_last()) * radix + digits.last() as nat
    }
}

/// Whether `radix` is a radix of Rust integer literals and each digit is below it.
pub open spec fn digits_valid(radix: u32, digits: Seq<u8>) -> bool {
    &&& (radix == 2 || radix == 8 || radix == 10 || radix == 16)
    &&& forall|i: int| 0 <= i < digits.len() ==> #[trigger] digits[i] < radix
}

/// The number that digits spell when it is at most `max`, or why not.
pub open spec fn spec_parse_digits(radix: u32, digits: Seq<u8>, max: u128) -> Result<u128, KeyError> {
    if !digits_valid(radix, digits) {
        Err(KeyError::MalformedInt)
    } else if digits_value(radix as nat, digits) > max {
        Err(KeyError::IntTooLarge)
    } else {
        Ok(digits_value(radix as nat, digits) as u128)
    }
}

/// A prefix of digits spells no larger a number than the whole.
proof fn lemma_digits_prefix(radix: nat, digits: Seq<u8>, i: int)
    requires
        radix >= 1,
        0 <= i <= digits.len(),
    ensures
        digits_value(radix, digits.take(i)) <= digits_value(radix, digits),
    decreases digits.len(),
{
    if i < digits.len() {
        let d = digits.drop_last();
        assert(d.take(i) =~= digits.take(i));
        lemma_digits_prefix(radix, d, i);
        assert(digits_value(radix, d) * radix >= digits_value(radix, d)) by (nonlinear_arith)
            requires
                radix >= 1,
        ;
    } else {
        assert(digits.take(i) =~= digits);
    }
}

/// Reads the number that digits in `radix` spell, if it is at most `max`.
pub fn parse_digits(radix: u32, digits: &Vec<u8>, max: u128) -> (r: Result<u128, KeyError>)
    ensures
        r == spec_parse_digits(radix, digits@, max),
{
    if !(radix == 2 || radix == 8 || radix == 10 || radix == 16) {
        return Err(KeyError::MalformedInt);
    }
    let n = digits.len();
    let mut i: usize = 0;
    while i < n
        invariant
            n == digits@.len(),
            i <= n,
            forall|j: int| 0 <= j < i ==> #[trigger] digits@[j] < radix,
        decreases n - i,
    {
        if digits[i] as u32 >= radix {
            return Err(KeyError::MalformedInt);
        }
        i = i + 1;
    }
    let mut acc: u128 = 0;
    let mut i: usize = 0;
    while i < n
        invariant
            n == digits@.len(),
            i <= n,
            digits_valid(radix, digits@),
            acc == digits_value(radix as nat, digits@.take(i as int)),
            acc <= max,
        decreases n - i,
    {
        proof {
            assert(digits@.take(i + 1).drop_last() =~= digits@.take(i as int));
        }
        let d = digits[i] as u128;
        let grown = match acc.checked_mul(radix as u128) {
            Some(m) => m.checked_add(d),
            None => None,
        };
        match grown {
            Some(v) if v <= max => {
                acc = v;
            },
            _ => {
                proof {
                    lemma_digits_prefix(radix as nat, digits@, i + 1);
                }
                return Err(KeyError::IntTooLarge);
            },
        }
        i = i + 1;
    }
    proof {
        assert(digits@.take(n as int) =~= digits@);
    }
    Ok(acc)
}

/// The bit pattern `bits` in the variant of width `width`.
pub open spec fn spec_int_bits(width: u8, bits: nat) -> IntBits {
    if width == 1 {
        IntBits::W8(bits as u8)
    } else if width == 2 {
        IntBits::W16(bits as u16)
    } else if width == 4 {
        IntBits::W32(bits as u32)
    } else if width == 8 {
        IntBits::W64(bits as u64)
    } else {
        IntBits::W128(bits as u128)
    }
}

/// The error for an integer suffix that names no integer type.
pub open spec fn suffix_error(suffix: Seq<char>) -> KeyError {
    if suffix.len() == 0 {
        KeyError::UnsuffixedInt
    } else {
        KeyError::UnknownIntSuffix
    }
}

/// The key that a non-negative integer literal stands for.
pub open spec fn spec_int_lit(radix: u32, digits: Seq<u8>, suffix: Seq<char>) -> Result<HashKeyView, KeyError> {
    match spec_int_type(suffix, pointer_bytes()) {
        None => Err(suffix_error(suffix)),
        Some((signed, width)) => match spec_parse_digits(radix, digits, u128::MAX) {
            Err(e) => Err(e),
            Ok(mag) => if mag <= max_positive(signed, width) {
                Ok(HashKeyView::Int(spec_int_bits(width, mag as nat)))
            } else {
                Err(KeyError::IntOutOfRange)
            },
        },
    }
}

/// The key that a literal stands for.
pub open spec fn spec_lit_key(lit: KeyLit) -> Result<HashKeyView, KeyError> {
    match lit {
        KeyLit::Str(s) => Ok(HashKeyView::Str(s@)),
        KeyLit::ByteStr(b) => Ok(HashKeyView::Bytes(b@)),
        KeyLit::CStr(b) => Ok(HashKeyView::CStr(b@)),
        KeyLit::Char(c) => Ok(HashKeyView::Char(c)),
        KeyLit::Bool(b) => Ok(HashKeyView::Bool(b)),
        KeyLit::Byte(b) => Ok(HashKeyView::Int(IntBits::W8(b))),
        KeyLit::Int { radix, digits, suffix } => spec_int_lit(radix, digits@, suffix@),
        KeyLit::Float => Err(KeyError::FloatKey),
        KeyLit::Other => Err(KeyError::UnsupportedLiteral),
    }
}

/// An expression without the parentheses and invisible groups around it.
pub open spec fn spec_strip(e: KeyExpr) -> KeyExpr
    decreases e,
{
    match e {
        KeyExpr::Paren(inner) => spec_strip(*inner),
        KeyExpr::Group(inner) => spec_strip(*inner),
        _ => e,
    }
}

/// The key that `-operand` stands for: the two's-complement bits of a negated signed integer literal.
pub open spec fn spec_negated(operand: KeyExpr) -> Result<HashKeyView, KeyError> {
    match spec_strip(operand) {
        KeyExpr::Lit(KeyLit::Int { radix, digits, suffix }) => match spec_int_type(suffix@, pointer_bytes()) {
            None => Err(suffix_error(suffix@)),
            Some((signed, width)) => if !signed {
                Err(KeyError::NegatedUnsigned)
            } else {
                match spec_parse_digits(radix, digits@, u128::MAX) {
                    Err(e) => Err(e),
                    Ok(mag) => if mag <= pow2((bits_of(width) - 1) as nat) {
                        Ok(HashKeyView::Int(spec_int_bits(width, ((pow2(bits_of(width)) - mag) % pow2(bits_of(width)) as int) as nat)))
                    } else {
                        Err(KeyError::IntOutOfRange)
                    },
                }
            },
        },
        _ => Err(KeyError::NegatedNonInt),
    }
}

/// The count `N` of an array `[T; N]`.
pub open spec fn spec_repeat_count(len: KeyExpr) -> Result<usize, KeyError> {
    match spec_strip(len) {
        KeyExpr::Lit(KeyLit::Int { radix, digits, .. }) => match spec_parse_digits(radix, digits@, usize::MAX as u128) {
            Ok(v) => Ok(v as usize),
            Err(e) => Err(e),
        },
        KeyExpr::Neg(_) => Err(KeyError::NegativeRepeatCount),
        _ => Err(KeyError::NonLiteralRepeatCount),
    }
}

/// Returns the width in bytes of `usize` on this target.
pub fn target_pointer_bytes() -> (r: u8)
    ensures
        r == pointer_bytes(),
        r == 4 || r == 8,
{
    (usize::BITS / 8) as u8
}

/// Narrows a bit pattern into its variant, as `spec_int_bits` says.
fn make_int_bits(width: u8, bits: u128) -> (r: IntBits)
    requires
        width == 1 || width == 2 || width == 4 || width == 8 || width == 16,
        bits < pow2(bits_of(width)),
    ensures
        r == spec_int_bits(width, bits as nat),
{
    let r = int_bits(width, bits);
    proof {
        assert(int_bits_width(r) == width && int_bits_value(r) == bits);
    }
    r
}

/// Interprets a non-negative integer literal.
fn int_lit_key(radix: u32, digits: &Vec<u8>, suffix: &String) -> (r: Result<HashKey, KeyError>)
    ensures
        match r {
            Ok(k) => spec_int_lit(radix, digits@, suffix@) == Ok::<HashKeyView, KeyError>(k@),
            Err(e) => spec_int_lit(radix, digits@, suffix@) == Err::<HashKeyView, KeyError>(e),
        },
{
    let pb = target_pointer_bytes();
    match int_type(suffix.as_str(), pb) {
        None => {
            if suffix.as_str().is_empty() {
                Err(KeyError::UnsuffixedInt)
            } else {
                Err(KeyError::UnknownIntSuffix)
            }
        },
        Some((signed, width)) => {
            let mag = match parse_digits(radix, digits, u128::MAX) {
                Ok(m) => m,
                Err(e) => return Err(e),
            };
            match positive_bits(mag, signed, width) {
                Some(bits) => {
                    proof {
                        lemma_positive_fits(signed, width, mag);
                    }
                    Ok(HashKey::Int(make_int_bits(width, bits)))
                },
                None => Err(KeyError::IntOutOfRange),
            }
        },
    }
}

/// A magnitude within the range of its type fits the type's width.
proof fn lemma_positive_fits(signed: bool, width: u8, mag: u128)
    requires
        width == 1 || width == 2 || width == 4 || width == 8 || width == 16,
        mag <= max_positive(signed, width),
    ensures
        mag < pow2(bits_of(width)),
{
    lemma_pow2_strictly_increases((bits_of(width) - 1) as nat, bits_of(width));
}

/// Copies a byte vector.
fn copy_bytes(b: &Vec<u8>) -> (r: Vec<u8>)
    ensures
        r@ == b@,
{
    let r = b.clone();
    proof {
        assert(r@ =~= b@);
    }
    r
}

/// Interprets a literal key.
pub fn lit_to_hash_key(lit: &KeyLit) -> (r: Result<HashKey, KeyError>)
    ensures
        match r {
            Ok(k) => spec_lit_key(*lit) == Ok::<HashKeyView, KeyError>(k@),
            Err(e) => spec_lit_key(*lit) == Err::<HashKeyView, KeyError>(e),
        },
{
    match lit {
        KeyLit::Str(s) => Ok(HashKey::Str(s.clone())),
        KeyLit::ByteStr(b) => Ok(HashKey::Bytes(copy_bytes(b))),
        KeyLit::CStr(b) => Ok(HashKey::CStr(copy_bytes(b))),
        KeyLit::Char(c) => Ok(HashKey::Char(*c)),
        KeyLit::Bool(b) => Ok(HashKey::Bool(*b)),
        KeyLit::Byte(b) => Ok(HashKey::Int(IntBits::W8(*b))),
        KeyLit::Int { radix, digits, suffix } => int_lit_key(*radix, digits, suffix),
        KeyLit::Float => Err(KeyError::FloatKey),
        KeyLit::Other => Err(KeyError::UnsupportedLiteral),
    }
}

/// Looks through the parentheses and invisible groups around an expression.
pub fn strip_groups(e: &KeyExpr) -> (r: &KeyExpr)
    ensures
        *r == spec_strip(*e),
    decreases e,
{
    match e {
        KeyExpr::Paren(inner) => strip_groups(inner),
        KeyExpr::Group(inner) => strip_groups(inner),
        _ => e,
    }
}

/// Interprets `-operand`, which must be a signed integer literal within the range of its type.
pub fn negated_int(operand: &KeyExpr) -> (r: Result<HashKey, KeyError>)
    ensures
        match r {
            Ok(k) => spec_negated(*operand) == Ok::<HashKeyView, KeyError>(k@),
            Err(e) => spec_negated(*operand) == Err::<HashKeyView, KeyError>(e),
        },
{
    match strip_groups(operand) {
        KeyExpr::Lit(KeyLit::Int { radix, digits, suffix }) => {
            let pb = target_pointer_bytes();
            match int_type(suffix.as_str(), pb) {
                None => {
                    if suffix.as_str().is_empty() {
                        Err(KeyError::UnsuffixedInt)
                    } else {
                        Err(KeyError::UnknownIntSuffix)
                    }
                },
                Some((signed, width)) => {
                    if !signed {
                        return Err(KeyError::NegatedUnsigned);
                    }
                    let mag = match parse_digits(*radix, digits, u128::MAX) {
                        Ok(m) => m,
                        Err(e) => return Err(e),
                    };
                    match negative_bits(mag, width) {
                        Some(bits) => {
                            proof {
                                let p = pow2(bits_of(width));
                                lemma_pow2_pos(bits_of(width));
                                lemma_width_pows();
                                assert(((p - mag) % p as int) < p);
                                assert(bits as nat == ((p - mag) % p as int) as nat);
                            }
                            Ok(HashKey::Int(make_int_bits(width, bits)))
                        },
                        None => Err(KeyError::IntOutOfRange),
                    }
                },
            }
        },
        _ => Err(KeyError::NegatedNonInt),
    }
}

/// Reads the count `N` of an array `[T; N]`: an integer literal, whatever its suffix.
pub fn repeat_count(len: &KeyExpr) -> (r: Result<usize, KeyError>)
    ensures
        r == spec_repeat_count(*len),
{
    match strip_groups(len) {
        KeyExpr::Lit(KeyLit::Int { radix, digits, .. }) => match parse_digits(*radix, digits, usize::MAX as u128) {
            Ok(v) => Ok(v as usize),
            Err(e) => Err(e),
        },
        KeyExpr::Neg(_) => Err(KeyError::NegativeRepeatCount),
        _ => Err(KeyError::NonLiteralRepeatCount),
    }
}


/// Copies a key.
pub fn copy_hash_key(k: &HashKey) -> (r: HashKey)
    ensures
        r@ == k@,
    decreases k,
{
    match k {
        HashKey::Str(s) => HashKey::Str(s.clone()),
        HashKey::Bytes(b) => HashKey::Bytes(copy_bytes(b)),
        HashKey::CStr(b) => HashKey::CStr(copy_bytes(b)),
        HashKey::Char(c) => HashKey::Char(*c),
        HashKey::Bool(b) => HashKey::Bool(*b),
        HashKey::Int(i) => HashKey::Int(*i),
        HashKey::Tuple(items) => {
            let out = copy_keys(items);
            let r = HashKey::Tuple(out);
            r
        },
        HashKey::List(items) => {
            let out = copy_keys(items);
            let r = HashKey::List(out);
            r
        },
        HashKey::Range { closed, start, end } => HashKey::Range { closed: *closed, start: *start, end: *end },
    }
}

/// Copies a list of keys.
fn copy_keys(items: &Vec<HashKey>) -> (r: Vec<HashKey>)
    ensures
        views(r@) == views(items@),
    decreases items,
{
    let mut out: Vec<HashKey> = Vec::new();
    for i in 0..items.len()
        invariant
            out@.len() == i,
            forall|j: int| 0 <= j < i ==> (#[trigger] out@[j])@ == items@[j]@,
    {
        assert(decreases_to!(items => items@[i as int]));
        let c = copy_hash_key(&items[i]);
        out.push(c);
    }
    proof {
        lemma_views(out@);
        lemma_views(items@);
        assert(views(out@) =~= views(items@));
    }
    out
}

/// The values of a list of keys are the values of its keys, in order.
pub proof fn lemma_views(keys: Seq<HashKey>)
    ensures
        views(keys).len() == keys.len(),
        forall|i: int| 0 <= i < keys.len() ==> #[trigger] views(keys)[i] == keys[i]@,
    decreases keys.len(),
{
    reveal_with_fuel(views, 2);
    if keys.len() > 0 {
        lemma_views(keys.subrange(0, keys.len() - 1));
    }
}

/// The value of a key that an interpretation gave, or its error.
pub open spec fn result_view(r: Result<HashKey, KeyError>) -> Result<HashKeyView, KeyError> {
    match r {
        Ok(k) => Ok(k@),
        Err(e) => Err(e),
    }
}

/// The bound that a key gives a range: an integer or a character, and nothing else.
pub open spec fn as_bound(k: HashKeyView) -> Option<RangeBound> {
    match k {
        HashKeyView::Int(b) => Some(RangeBound::Int(b)),
        HashKeyView::Char(c) => Some(RangeBound::Char(c)),
        _ => None,
    }
}

/// Whether two range bounds have one type: integers of one width, or characters.
pub open spec fn same_bound_type(a: RangeBound, b: RangeBound) -> bool {
    match (a, b) {
        (RangeBound::Int(x), RangeBound::Int(y)) => int_bits_width(x) == int_bits_width(y),
        (RangeBound::Char(_), RangeBound::Char(_)) => true,
        _ => false,
    }
}

/// The bound of a range, if present.
pub open spec fn bound_of(k: Option<HashKeyView>) -> Option<RangeBound> {
    match k {
        Some(v) => as_bound(v),
        None => None,
    }
}

/// The key of a range whose present bounds were interpreted without error.
pub open spec fn spec_range_key(closed: bool, start: Option<HashKeyView>, end: Option<HashKeyView>) -> Result<HashKeyView, KeyError> {
    if (start is Some && bound_of(start) is None) || (end is Some && bound_of(end) is None) {
        Err(KeyError::RangeBoundKind)
    } else if start is Some && end is Some && !same_bound_type(bound_of(start).unwrap(), bound_of(end).unwrap()) {
        Err(KeyError::RangeBoundMismatch)
    } else {
        Ok(HashKeyView::Range { closed, start: bound_of(start), end: bound_of(end) })
    }
}

/// The key of `[element; count]`. An empty array of integers hashes as an empty byte string, since
/// integer slices hash their bytes in bulk.
pub open spec fn spec_repeated(element: HashKeyView, count: usize) -> HashKeyView {
    if count == 0 {
        if element is Int {
            HashKeyView::Bytes(Seq::empty())
        } else {
            HashKeyView::List(Seq::empty())
        }
    } else {
        HashKeyView::List(Seq::new(count as nat, |_i: int| element))
    }
}

/// The interpretation of an optional range bound.
pub open spec fn ok_of(r: Option<Result<HashKeyView, KeyError>>) -> Option<HashKeyView> {
    match r {
        Some(Ok(k)) => Some(k),
        _ => None,
    }
}

/// The key that an expression stands for, or why it stands for none.
pub open spec fn spec_key_of(e: KeyExpr) -> Result<HashKeyView, KeyError>
    decreases e,
{
    match e {
        KeyExpr::Lit(lit) => spec_lit_key(lit),
        KeyExpr::Neg(operand) => spec_negated(*operand),
        KeyExpr::Tuple(items) => match spec_keys_of(items@) {
            Ok(ks) => Ok(HashKeyView::Tuple(ks)),
            Err(x) => Err(x),
        },
        KeyExpr::Array(items) => if items@.len() == 0 {
            Err(KeyError::EmptyArray)
        } else {
            match spec_keys_of(items@) {
                Ok(ks) => Ok(HashKeyView::List(ks)),
                Err(x) => Err(x),
            }
        },
        KeyExpr::Repeat { element, len } => match spec_repeat_count(*len) {
            Err(x) => Err(x),
            Ok(count) => match spec_key_of(*element) {
                Err(x) => Err(x),
                Ok(k) => Ok(spec_repeated(k, count)),
            },
        },
        KeyExpr::Range { closed, start, end } => {
            let s = match start {
                Some(b) => Some(spec_key_of(*b)),
                None => None,
            };
            let t = match end {
                Some(b) => Some(spec_key_of(*b)),
                None => None,
            };
            match s {
                Some(Err(x)) => Err(x),
                _ => match t {
                    Some(Err(x)) => Err(x),
                    _ => spec_range_key(closed, ok_of(s), ok_of(t)),
                },
            }
        },
        KeyExpr::Paren(inner) => spec_key_of(*inner),
        KeyExpr::Group(inner) => spec_key_of(*inner),
        KeyExpr::Ref(inner) => spec_key_of(*inner),
        KeyExpr::Closure => Err(KeyError::ClosureKey),
        KeyExpr::Path => Err(KeyError::PathKey),
        KeyExpr::Cast => Err(KeyError::CastKey),
        KeyExpr::Other => Err(KeyError::UnsupportedKey),
    }
}

/// The keys that a list of expressions stand for, or the error of the first that stands for none.
pub open spec fn spec_keys_of(items: Seq<KeyExpr>) -> Result<Seq<HashKeyView>, KeyError>
    decreases items,
{
    if items.len() == 0 {
        Ok(Seq::empty())
    } else {
        match spec_keys_of(items.subrange(0, items.len() - 1)) {
            Err(x) => Err(x),
            Ok(prefix) => match spec_key_of(items[items.len() - 1]) {
                Err(x) => Err(x),
                Ok(k) => Ok(prefix.push(k)),
            },
        }
    }
}

/// Once a prefix of a list of expressions fails, every longer prefix fails with the same error.
proof fn lemma_keys_error_extends(items: Seq<KeyExpr>, i: int, j: int, e: KeyError)
    requires
        0 <= i <= j <= items.len(),
        spec_keys_of(items.take(i)) == Err::<Seq<HashKeyView>, KeyError>(e),
    ensures
        spec_keys_of(items.take(j)) == Err::<Seq<HashKeyView>, KeyError>(e),
    decreases j - i,
{
    if i < j {
        reveal_with_fuel(spec_keys_of, 2);
        assert(items.take(i + 1).subrange(0, i) =~= items.take(i));
        lemma_keys_error_extends(items, i + 1, j, e);
    }
}

/// Appending a key appends its value.
proof fn lemma_views_push(keys: Seq<HashKey>, k: HashKey)
    ensures
        views(keys.push(k)) == views(keys).push(k@),
{
    reveal_with_fuel(views, 2);
    assert(keys.push(k).subrange(0, keys.len() as int) =~= keys);
}

/// Interprets a list of expressions, stopping at the first that stands for no key.
pub fn keys_of(items: &Vec<KeyExpr>) -> (r: Result<Vec<HashKey>, KeyError>)
    ensures
        match r {
            Ok(ks) => spec_keys_of(items@) == Ok::<Seq<HashKeyView>, KeyError>(views(ks@)),
            Err(e) => spec_keys_of(items@) == Err::<Seq<HashKeyView>, KeyError>(e),
        },
    decreases items, 0int,
{
    let mut out: Vec<HashKey> = Vec::new();
    proof {
        reveal_with_fuel(spec_keys_of, 2);
        reveal_with_fuel(views, 2);
        assert(items@.take(0) =~= Seq::<KeyExpr>::empty());
        assert(views(out@) =~= Seq::<HashKeyView>::empty());
    }
    for i in 0..items.len()
        invariant
            spec_keys_of(items@.take(i as int)) == Ok::<Seq<HashKeyView>, KeyError>(views(out@)),
    {
        assert(decreases_to!(items => items@[i as int]));
        proof {
            reveal_with_fuel(spec_keys_of, 2);
            assert(items@.take(i + 1).subrange(0, i as int) =~= items@.take(i as int));
            assert(items@.take(i + 1)[i as int] == items@[i as int]);
        }
        match expr_to_hash_key(&items[i]) {
            Ok(k) => {
                proof {
                    lemma_views_push(out@, k);
                }
                out.push(k);
            },
            Err(e) => {
                proof {
                    lemma_keys_error_extends(items@, i + 1, items@.len() as int, e);
                    assert(items@.take(items@.len() as int) =~= items@);
                }
                return Err(e);
            },
        }
    }
    proof {
        assert(items@.take(items@.len() as int) =~= items@);
    }
    Ok(out)
}

/// Interprets a range expression: its bounds must be integers or characters of one type.
fn range_to_hash_key(range: &KeyExpr) -> (r: Result<HashKey, KeyError>)
    requires
        range is Range,
    ensures
        result_view(r) == spec_key_of(*range),
    decreases range, 0int,
{
    match range {
        KeyExpr::Range { closed, start, end } => {
            let s = match start {
                Some(b) => match expr_to_hash_key(b) {
                    Ok(k) => Some(k),
                    Err(e) => return Err(e),
                },
                None => None,
            };
            let t = match end {
                Some(b) => match expr_to_hash_key(b) {
                    Ok(k) => Some(k),
                    Err(e) => return Err(e),
                },
                None => None,
            };
            let sb = match &s {
                Some(k) => match range_bound(k) {
                    Some(b) => Some(b),
                    None => return Err(KeyError::RangeBoundKind),
                },
                None => None,
            };
            let tb = match &t {
                Some(k) => match range_bound(k) {
                    Some(b) => Some(b),
                    None => return Err(KeyError::RangeBoundKind),
                },
                None => None,
            };
            if let (Some(a), Some(b)) = (sb, tb) {
                if !bounds_of_one_type(a, b) {
                    return Err(KeyError::RangeBoundMismatch);
                }
            }
            Ok(HashKey::Range { closed: *closed, start: sb, end: tb })
        },
        _ => Err(KeyError::UnsupportedKey),
    }
}

/// The bound that a key gives a range, if it is an integer or a character.
fn range_bound(k: &HashKey) -> (r: Option<RangeBound>)
    ensures
        r == as_bound(k@),
{
    match k {
        HashKey::Int(b) => Some(RangeBound::Int(*b)),
        HashKey::Char(c) => Some(RangeBound::Char(*c)),
        _ => None,
    }
}

/// Whether two range bounds have one type.
pub(crate) fn bounds_of_one_type(a: RangeBound, b: RangeBound) -> (r: bool)
    ensures
        r == same_bound_type(a, b),
{
    match (a, b) {
        (RangeBound::Int(x), RangeBound::Int(y)) => int_width(x) == int_width(y),
        (RangeBound::Char(_), RangeBound::Char(_)) => true,
        _ => false,
    }
}

/// The width in bytes of a bit pattern.
pub(crate) fn int_width(b: IntBits) -> (r: u8)
    ensures
        r == int_bits_width(b),
{
    match b {
        IntBits::W8(_) => 1,
        IntBits::W16(_) => 2,
        IntBits::W32(_) => 4,
        IntBits::W64(_) => 8,
        IntBits::W128(_) => 16,
    }
}

/// Interprets a key expression as the value that decides its hash: literals, negated integer literals,
/// tuples, arrays, repeat arrays and ranges of such keys, through parentheses and references.
pub fn expr_to_hash_key(expr: &KeyExpr) -> (r: Result<HashKey, KeyError>)
    ensures
        result_view(r) == spec_key_of(*expr),
    decreases expr, 1int,
{
    match expr {
        KeyExpr::Lit(lit) => lit_to_hash_key(lit),
        KeyExpr::Neg(operand) => negated_int(operand),
        KeyExpr::Tuple(items) => match keys_of(items) {
            Ok(ks) => Ok(HashKey::Tuple(ks)),
            Err(e) => Err(e),
        },
        KeyExpr::Array(items) => {
            if items.len() == 0 {
                return Err(KeyError::EmptyArray);
            }
            match keys_of(items) {
                Ok(ks) => Ok(HashKey::List(ks)),
                Err(e) => Err(e),
            }
        },
        KeyExpr::Repeat { element, len } => {
            let count = match repeat_count(len) {
                Ok(c) => c,
                Err(e) => return Err(e),
            };
            let k = match expr_to_hash_key(element) {
                Ok(k) => k,
                Err(e) => return Err(e),
            };
            Ok(repeat_key(k, count))
        },
        KeyExpr::Range { .. } => range_to_hash_key(expr),
        KeyExpr::Paren(inner) => expr_to_hash_key(inner),
        KeyExpr::Group(inner) => expr_to_hash_key(inner),
        KeyExpr::Ref(inner) => expr_to_hash_key(inner),
        KeyExpr::Closure => Err(KeyError::ClosureKey),
        KeyExpr::Path => Err(KeyError::PathKey),
        KeyExpr::Cast => Err(KeyError::CastKey),
        KeyExpr::Other => Err(KeyError::UnsupportedKey),
    }
}

/// The key of `[k; count]`.
fn repeat_key(k: HashKey, count: usize) -> (r: HashKey)
    ensures
        r@ == spec_repeated(k@, count),
{
    if count == 0 {
        let r = if let HashKey::Int(_) = k {
            HashKey::Bytes(Vec::new())
        } else {
            HashKey::List(Vec::new())
        };
        proof {
            reveal_with_fuel(views, 1);
            assert(views(Seq::<HashKey>::empty()) =~= Seq::<HashKeyView>::empty());
            assert(r@ =~= spec_repeated(k@, count));
        }
        return r;
    }
    let mut out: Vec<HashKey> = Vec::new();
    let mut i: usize = 0;
    proof {
        reveal_with_fuel(views, 1);
    }
    while i < count
        invariant
            i <= count,
            out@.len() == i,
            forall|j: int| 0 <= j < i ==> (#[trigger] out@[j])@ == k@,
        decreases count - i,
    {
        out.push(copy_hash_key(&k));
        i = i + 1;
    }
    proof {
        lemma_views(out@);
        assert(views(out@) =~= Seq::new(count as nat, |_i: int| k@));
    }
    HashKey::List(out)
}

/// One `Hash` call on a value of a std type; a key's hash is a sequence of them.
#[derive(Debug, PartialEq, Eq)]
pub enum HashWrite {
    /// `write_usize` of a length prefix.
    Len(usize),
    /// Hashing a `str`.
    Str(String),
    /// Hashing a `[u8]`.
    Bytes(Vec<u8>),
    /// Hashing a `CStr` of these bytes.
    CStr(Vec<u8>),
    Char(char),
    Bool(bool),
    Int(IntBits),
    /// Hashing a slice of integers of one width, which std hashes as its length and raw bytes.
    IntSlice(Vec<IntBits>),
    /// Hashing a std range with these bounds.
    Range { closed: bool, start: Option<RangeBound>, end: Option<RangeBound> },
}

/// The mathematical value of a [`HashWrite`].
pub enum HashWriteView {
    Len(usize),
    Str(Seq<char>),
    Bytes(Seq<u8>),
    CStr(Seq<u8>),
    Char(char),
    Bool(bool),
    Int(IntBits),
    IntSlice(Seq<IntBits>),
    Range { closed: bool, start: Option<RangeBound>, end: Option<RangeBound> },
}

impl View for HashWrite {
    type V = HashWriteView;

    open spec fn view(&self) -> HashWriteView {
        match self {
            HashWrite::Len(n) => HashWriteView::Len(*n),
            HashWrite::Str(s) => HashWriteView::Str(s@),
            HashWrite::Bytes(b) => HashWriteView::Bytes(b@),
            HashWrite::CStr(b) => HashWriteView::CStr(b@),
            HashWrite::Char(c) => HashWriteView::Char(*c),
            HashWrite::Bool(b) => HashWriteView::Bool(*b),
            HashWrite::Int(i) => HashWriteView::Int(*i),
            HashWrite::IntSlice(v) => HashWriteView::IntSlice(v@),
            HashWrite::Range { closed, start, end } => HashWriteView::Range { closed: *closed, start: *start, end: *end },
        }
    }
}

/// The values of a list of writes.
pub open spec fn write_views(ws: Seq<HashWrite>) -> Seq<HashWriteView> {
    Seq::new(ws.len(), |i: int| ws[i]@)
}

/// Whether a list of keys is non-empty and holds integers of one width only.
pub open spec fn is_int_run(items: Seq<HashKeyView>) -> bool {
    &&& items.len() > 0
    &&& forall|i: int| 0 <= i < items.len() ==> (#[trigger] items[i]) is Int
        && int_bits_width(items[i]->Int_0) == int_bits_width(items[0]->Int_0)
}

/// The writes of a key: a tuple hashes its fields in order, an array as a slice, every other key as one
/// value of its std type.
pub open spec fn spec_key_writes(k: HashKeyView) -> Seq<HashWriteView>
    decreases k, 0int,
{
    match k {
        HashKeyView::Str(s) => seq![HashWriteView::Str(s)],
        HashKeyView::Bytes(b) => seq![HashWriteView::Bytes(b)],
        HashKeyView::CStr(b) => seq![HashWriteView::CStr(b)],
        HashKeyView::Char(c) => seq![HashWriteView::Char(c)],
        HashKeyView::Bool(b) => seq![HashWriteView::Bool(b)],
        HashKeyView::Int(i) => seq![HashWriteView::Int(i)],
        HashKeyView::Tuple(items) => spec_items_writes(items),
        HashKeyView::List(items) => spec_hash_seq(items),
        HashKeyView::Range { closed, start, end } => seq![HashWriteView::Range { closed, start, end }],
    }
}

/// The writes of a list of keys, one after another.
pub open spec fn spec_items_writes(items: Seq<HashKeyView>) -> Seq<HashWriteView>
    decreases items, 1int,
{
    if items.len() == 0 {
        Seq::empty()
    } else {
        spec_items_writes(items.subrange(0, items.len() - 1)) + spec_key_writes(items[items.len() - 1])
    }
}

/// The writes of an array or slice of keys: a run of integers of one width is hashed in bulk as a slice of
/// that integer type; any other list as its length, then its items one after another.
pub open spec fn spec_hash_seq(items: Seq<HashKeyView>) -> Seq<HashWriteView>
    decreases items, 2int,
{
    if is_int_run(items) {
        seq![HashWriteView::IntSlice(Seq::new(items.len(), |i: int| items[i]->Int_0))]
    } else {
        seq![HashWriteView::Len(items.len() as usize)] + spec_items_writes(items)
    }
}

/// Appends the writes of a key.
fn key_writes(k: &HashKey, out: &mut Vec<HashWrite>)
    ensures
        write_views(final(out)@) == write_views(old(out)@) + spec_key_writes(k@),
    decreases k, 0int,
{
    let ghost before = out@;
    match k {
        HashKey::Str(s) => out.push(HashWrite::Str(s.clone())),
        HashKey::Bytes(b) => out.push(HashWrite::Bytes(copy_bytes(b))),
        HashKey::CStr(b) => out.push(HashWrite::CStr(copy_bytes(b))),
        HashKey::Char(c) => out.push(HashWrite::Char(*c)),
        HashKey::Bool(b) => out.push(HashWrite::Bool(*b)),
        HashKey::Int(i) => out.push(HashWrite::Int(*i)),
        HashKey::Tuple(items) => {
            proof {
                assert(decreases_to!(k => items@));
            }
            items_writes(items.as_slice(), out);
            proof {
                lemma_list_view(*k);
            }
            return;
        },
        HashKey::List(items) => {
            proof {
                assert(decreases_to!(k => items@));
            }
            let mut sub = hash_seq(items.as_slice());
            let ghost sub_before = sub@;
            out.append(&mut sub);
            proof {
                lemma_list_view(*k);
                assert(write_views(out@) =~= write_views(before) + write_views(sub_before));
            }
            return;
        },
        HashKey::Range { closed, start, end } => out.push(HashWrite::Range { closed: *closed, start: *start, end: *end }),
    }
    proof {
        assert(write_views(out@) =~= write_views(before) + spec_key_writes(k@));
    }
}

/// The value of a tuple or array key holds the values of its items.
proof fn lemma_list_view(k: HashKey)
    ensures
        k matches HashKey::Tuple(items) ==> k@ == HashKeyView::Tuple(views(items@)),
        k matches HashKey::List(items) ==> k@ == HashKeyView::List(views(items@)),
{
}

/// Appends the writes of each key in turn.
fn items_writes(items: &[HashKey], out: &mut Vec<HashWrite>)
    ensures
        write_views(final(out)@) == write_views(old(out)@) + spec_items_writes(views(items@)),
    decreases items@, 1int,
{
    let ghost before = out@;
    proof {
        reveal_with_fuel(views, 2);
        assert(views(items@.take(0)) =~= Seq::<HashKeyView>::empty());
        assert(write_views(out@) =~= write_views(before) + spec_items_writes(views(items@.take(0))));
    }
    for i in 0..items.len()
        invariant
            write_views(out@) == write_views(before) + spec_items_writes(views(items@.take(i as int))),
    {
        assert(decreases_to!(items@ => items@[i as int]));
        let ghost mid = out@;
        key_writes(&items[i], out);
        proof {
            let pre = items@.take(i as int);
            let next = items@.take(i + 1);
            assert(next =~= pre.push(items@[i as int]));
            lemma_views_push(pre, items@[i as int]);
            lemma_views(pre);
            assert(views(next).subrange(0, i as int) =~= views(pre));
            assert(write_views(out@) =~= write_views(before) + spec_items_writes(views(next)));
        }
    }
    proof {
        assert(items@.take(items@.len() as int) =~= items@);
    }
}

/// Returns whether a list of keys is non-empty and holds integers of one width only.
fn int_run(items: &[HashKey]) -> (r: bool)
    ensures
        r == is_int_run(views(items@)),
{
    proof {
        lemma_views(items@);
    }
    let n = items.len();
    if n == 0 {
        return false;
    }
    let width = match &items[0] {
        HashKey::Int(b) => int_width(*b),
        _ => return false,
    };
    for i in 0..n
        invariant
            n == items@.len(),
            n > 0,
            views(items@).len() == n,
            forall|j: int| 0 <= j < n ==> #[trigger] views(items@)[j] == items@[j]@,
            views(items@)[0] is Int,
            width == int_bits_width(views(items@)[0]->Int_0),
            forall|j: int| 0 <= j < i ==> (#[trigger] views(items@)[j]) is Int
                && int_bits_width(views(items@)[j]->Int_0) == width,
    {
        match &items[i] {
            HashKey::Int(b) => {
                if int_width(*b) != width {
                    proof {
                        assert(views(items@)[i as int] == items@[i as int]@);
                    }
                    return false;
                }
            },
            _ => {
                proof {
                    assert(views(items@)[i as int] == items@[i as int]@);
                }
                return false;
            },
        }
    }
    true
}

/// Returns the writes with which an array or slice of keys is hashed: a run of integers of one width in
/// bulk, as a slice of that integer type; any other list as its length, then its items in turn.
pub fn hash_seq(items: &[HashKey]) -> (r: Vec<HashWrite>)
    ensures
        write_views(r@) == spec_hash_seq(views(items@)),
    decreases items@, 2int,
{
    proof {
        lemma_views(items@);
    }
    if int_run(items) {
        let mut bits: Vec<IntBits> = Vec::new();
        for i in 0..items.len()
            invariant
                is_int_run(views(items@)),
                views(items@).len() == items@.len(),
                forall|j: int| 0 <= j < items@.len() ==> #[trigger] views(items@)[j] == items@[j]@,
                bits@.len() == i,
                forall|j: int| 0 <= j < i ==> #[trigger] bits@[j] == views(items@)[j]->Int_0,
        {
            match &items[i] {
                HashKey::Int(b) => bits.push(*b),
                _ => {
                    proof {
                        assert(views(items@)[i as int] is Int);
                    }
                    bits.push(IntBits::W8(0));
                },
            }
        }
        let mut out: Vec<HashWrite> = Vec::new();
        out.push(HashWrite::IntSlice(bits));
        proof {
            let vs = views(items@);
            assert(bits@ =~= Seq::new(vs.len(), |i: int| vs[i]->Int_0));
            assert(write_views(out@) =~= spec_hash_seq(vs));
        }
        out
    } else {
        let mut out: Vec<HashWrite> = Vec::new();
        out.push(HashWrite::Len(items.len()));
        proof {
            assert(write_views(out@) =~= seq![HashWriteView::Len(items@.len() as usize)]);
        }
        items_writes(items, &mut out);
        out
    }
}

/// Returns the writes with which a key is hashed.
pub fn hash_key_writes(k: &HashKey) -> (r: Vec<HashWrite>)
    ensures
        write_views(r@) == spec_key_writes(k@),
{
    let mut out: Vec<HashWrite> = Vec::new();
    proof {
        assert(write_views(out@) =~= Seq::<HashWriteView>::empty());
    }
    key_writes(k, &mut out);
    proof {
        assert(write_views(Seq::<HashWrite>::empty()) + spec_key_writes(k@) =~= spec_key_writes(k@));
    }
    out
}

/// Whether the hash of a key expression depends on the width of `usize`: `usize` and `isize` integers,
/// and byte strings, C strings, arrays and repeat arrays, whose hashes hold a length of type `usize`.
pub open spec fn spec_width_dependent(e: KeyExpr) -> bool
    decreases e, 0int,
{
    match e {
        KeyExpr::Lit(KeyLit::Int { suffix, .. }) => suffix@ == "usize"@ || suffix@ == "isize"@,
        KeyExpr::Lit(KeyLit::ByteStr(_)) => true,
        KeyExpr::Lit(KeyLit::CStr(_)) => true,
        KeyExpr::Lit(_) => false,
        KeyExpr::Array(_) => true,
        KeyExpr::Repeat { .. } => true,
        KeyExpr::Tuple(items) => spec_any_width_dependent(items@),
        KeyExpr::Range { start, end, .. } => (match start {
            Some(b) => spec_width_dependent(*b),
            None => false,
        }) || (match end {
            Some(b) => spec_width_dependent(*b),
            None => false,
        }),
        KeyExpr::Neg(inner) => spec_width_dependent(*inner),
        KeyExpr::Paren(inner) => spec_width_dependent(*inner),
        KeyExpr::Group(inner) => spec_width_dependent(*inner),
        KeyExpr::Ref(inner) => spec_width_dependent(*inner),
        _ => false,
    }
}

/// Whether the hash of any of a list of key expressions depends on the width of `usize`.
pub open spec fn spec_any_width_dependent(items: Seq<KeyExpr>) -> bool
    decreases items, 1int,
{
    if items.len() == 0 {
        false
    } else {
        spec_any_width_dependent(items.subrange(0, items.len() - 1)) || spec_width_dependent(items[items.len() - 1])
    }
}

/// Returns whether the hash of a key expression depends on the width of `usize`, so that tables computed
/// for it on one target hold only on targets of the same pointer width.
pub fn depends_on_pointer_width(e: &KeyExpr) -> (r: bool)
    ensures
        r == spec_width_dependent(*e),
    decreases e, 0int,
{
    match e {
        KeyExpr::Lit(KeyLit::Int { suffix, .. }) => same_str(suffix.as_str(), "usize") || same_str(suffix.as_str(), "isize"),
        KeyExpr::Lit(KeyLit::ByteStr(_)) => true,
        KeyExpr::Lit(KeyLit::CStr(_)) => true,
        KeyExpr::Lit(_) => false,
        KeyExpr::Array(_) => true,
        KeyExpr::Repeat { .. } => true,
        KeyExpr::Tuple(items) => any_depends_on_pointer_width(items),
        KeyExpr::Range { start, end, .. } => {
            let s = match start {
                Some(b) => depends_on_pointer_width(b),
                None => false,
            };
            let t = match end {
                Some(b) => depends_on_pointer_width(b),
                None => false,
            };
            s || t
        },
        KeyExpr::Neg(inner) => depends_on_pointer_width(inner),
        KeyExpr::Paren(inner) => depends_on_pointer_width(inner),
        KeyExpr::Group(inner) => depends_on_pointer_width(inner),
        KeyExpr::Ref(inner) => depends_on_pointer_width(inner),
        _ => false,
    }
}

/// Returns whether the hash of any of a list of key expressions depends on the width of `usize`.
fn any_depends_on_pointer_width(items: &Vec<KeyExpr>) -> (r: bool)
    ensures
        r == spec_any_width_dependent(items@),
    decreases items, 1int,
{
    let mut found = false;
    proof {
        reveal_with_fuel(spec_any_width_dependent, 2);
        assert(items@.take(0) =~= Seq::<KeyExpr>::empty());
    }
    for i in 0..items.len()
        invariant
            found == spec_any_width_dependent(items@.take(i as int)),
    {
        assert(decreases_to!(items => items@[i as int]));
        let d = depends_on_pointer_width(&items[i]);
        proof {
            reveal_with_fuel(spec_any_width_dependent, 2);
            assert(items@.take(i + 1).subrange(0, i as int) =~= items@.take(i as int));
            assert(items@.take(i + 1)[i as int] == items@[i as int]);
        }
        found = found || d;
    }
    proof {
        assert(items@.take(items@.len() as int) =~= items@);
    }
    found
}

/// Returns whether two optional range bounds are equal.
fn bound_eq(a: Option<RangeBound>, b: Option<RangeBound>) -> (r: bool)
    ensures
        r == (a == b),
{
    match (a, b) {
        (None, None) => true,
        (Some(RangeBound::Char(x)), Some(RangeBound::Char(y))) => x == y,
        (Some(RangeBound::Int(x)), Some(RangeBound::Int(y))) => x == y,
        _ => false,
    }
}

/// Returns whether two keys are equal.
pub fn hash_key_eq(a: &HashKey, b: &HashKey) -> (r: bool)
    ensures
        r == (a@ == b@),
    decreases a, 0int,
{
    proof {
        lemma_list_view(*a);
        lemma_list_view(*b);
    }
    match (a, b) {
        (HashKey::Str(x), HashKey::Str(y)) => *x == *y,
        (HashKey::Bytes(x), HashKey::Bytes(y)) => bytes_eq(x, y),
        (HashKey::CStr(x), HashKey::CStr(y)) => bytes_eq(x, y),
        (HashKey::Char(x), HashKey::Char(y)) => *x == *y,
        (HashKey::Bool(x), HashKey::Bool(y)) => *x == *y,
        (HashKey::Int(x), HashKey::Int(y)) => *x == *y,
        (HashKey::Tuple(x), HashKey::Tuple(y)) => keys_eq(x, y),
        (HashKey::List(x), HashKey::List(y)) => keys_eq(x, y),
        (HashKey::Range { closed: c1, start: s1, end: e1 }, HashKey::Range { closed: c2, start: s2, end: e2 }) => {
            *c1 == *c2 && bound_eq(*s1, *s2) && bound_eq(*e1, *e2)
        },
        _ => false,
    }
}

/// Returns whether two lists of keys hold equal keys in the same order.
fn keys_eq(a: &Vec<HashKey>, b: &Vec<HashKey>) -> (r: bool)
    ensures
        r == (views(a@) == views(b@)),
    decreases a, 1int,
{
    proof {
        lemma_views(a@);
        lemma_views(b@);
    }
    if a.len() != b.len() {
        return false;
    }
    for i in 0..a.len()
        invariant
            a@.len() == b@.len(),
            views(a@).len() == a@.len(),
            views(b@).len() == b@.len(),
            forall|j: int| 0 <= j < a@.len() ==> #[trigger] views(a@)[j] == a@[j]@,
            forall|j: int| 0 <= j < b@.len() ==> #[trigger] views(b@)[j] == b@[j]@,
            forall|j: int| 0 <= j < i ==> views(a@)[j] == views(b@)[j],
    {
        assert(decreases_to!(a => a@[i as int]));
        if !hash_key_eq(&a[i], &b[i]) {
            proof {
                assert(views(a@)[i as int] != views(b@)[i as int]);
            }
            return false;
        }
    }
    proof {
        assert(views(a@) =~= views(b@));
    }
    true
}

/// Whether the key at `j` is the first that equals an earlier one, and `i` is the first position of the key
/// it equals.
pub open spec fn is_first_repeat(keys: Seq<HashKeyView>, i: int, j: int) -> bool {
    &&& 0 <= i < j < keys.len()
    &&& keys[i] == keys[j]
    &&& forall|i2: int| 0 <= i2 < i ==> keys[i2] != keys[j]
    &&& forall|a: int, b: int| 0 <= a < b < j ==> keys[a] != keys[b]
}

/// Returns the first key that equals an earlier one, with the first position of that earlier key, or
/// `None` when all keys differ.
pub fn first_repeat(keys: &[HashKey]) -> (r: Option<(usize, usize)>)
    ensures
        match r {
            Some((i, j)) => is_first_repeat(views(keys@), i as int, j as int),
            None => forall|a: int, b: int| 0 <= a < b < keys@.len() ==> views(keys@)[a] != views(keys@)[b],
        },
{
    proof {
        lemma_views(keys@);
    }
    let ghost vs = views(keys@);
    let n = keys.len();
    for j in 0..n
        invariant
            n == keys@.len(),
            vs == views(keys@),
            vs.len() == n,
            forall|k: int| 0 <= k < n ==> #[trigger] vs[k] == keys@[k]@,
            forall|a: int, b: int| 0 <= a < b < j ==> vs[a] != vs[b],
    {
        for i in 0..j
            invariant
                n == keys@.len(),
                j < n,
                vs == views(keys@),
                vs.len() == n,
                forall|k: int| 0 <= k < n ==> #[trigger] vs[k] == keys@[k]@,
                forall|a: int, b: int| 0 <= a < b < j ==> vs[a] != vs[b],
                forall|i2: int| 0 <= i2 < i ==> vs[i2] != vs[j as int],
        {
            if hash_key_eq(&keys[i], &keys[j]) {
                return Some((i, j));
            }
        }
    }
    None
}

/// A list of one expression repeated stands for that expression's key repeated, or fails as it does.
proof fn lemma_keys_of_copies(e: KeyExpr, m: nat)
    ensures
        spec_keys_of(Seq::new(m, |_i: int| e)) == (if m == 0 {
            Ok(Seq::<HashKeyView>::empty())
        } else {
            match spec_key_of(e) {
                Ok(k) => Ok(Seq::new(m, |_i: int| k)),
                Err(x) => Err(x),
            }
        }),
    decreases m,
{
    reveal_with_fuel(spec_keys_of, 2);
    let s = Seq::new(m, |_i: int| e);
    if m > 0 {
        let shorter = Seq::new((m - 1) as nat, |_i: int| e);
        assert(s.subrange(0, m - 1) =~= shorter);
        lemma_keys_of_copies(e, (m - 1) as nat);
        if let Ok(k) = spec_key_of(e) {
            assert(Seq::new((m - 1) as nat, |_i: int| k).push(k) =~= Seq::new(m, |_i: int| k));
            if m == 1 {
                assert(Seq::<HashKeyView>::empty().push(k) =~= Seq::new(m, |_i: int| k));
            }
        }
    } else {
        assert(s.len() == 0);
    }
}

/// A repeat array `[element; N]` with `N > 0` stands for the key that the array holding `element` `N`
/// times stands for, and fails exactly as that array does.
pub proof fn lemma_repeat_is_array(element: KeyExpr, len: KeyExpr, items: Vec<KeyExpr>)
    requires
        spec_repeat_count(len) is Ok,
        spec_repeat_count(len)->Ok_0 > 0,
        items@ == Seq::new(spec_repeat_count(len)->Ok_0 as nat, |_i: int| element),
    ensures
        spec_key_of(KeyExpr::Repeat { element: Box::new(element), len: Box::new(len) }) == spec_key_of(KeyExpr::Array(items)),
{
    let n = spec_repeat_count(len)->Ok_0;
    lemma_keys_of_copies(element, n as nat);
}

/// Why a list of key expressions cannot be the keys of one map.
#[derive(Clone, Copy, Debug, PartialEq, Eq, Structural)]
pub enum PrepareError {
    /// There are more than `MAX_LEN` keys.
    TooManyKeys,
    /// The first expression that stands for no key, and why.
    Key(KeyError),
    /// The key at the second position equals the one at the first, so no map can tell them apart.
    Indistinguishable(usize, usize),
}

/// Interprets the key expressions of one map: at most `MAX_LEN` of them, each standing for a key, and no two
/// for one key.
pub fn prepare_keys(keys: &Vec<KeyExpr>) -> (r: Result<Vec<HashKey>, PrepareError>)
    ensures
        keys@.len() > MAX_LEN ==> r == Err::<Vec<HashKey>, PrepareError>(PrepareError::TooManyKeys),
        keys@.len() <= MAX_LEN ==> match spec_keys_of(keys@) {
            Err(e) => r == Err::<Vec<HashKey>, PrepareError>(PrepareError::Key(e)),
            Ok(ks) => match r {
                Ok(v) => views(v@) == ks && forall|a: int, b: int| 0 <= a < b < ks.len() ==> ks[a] != ks[b],
                Err(PrepareError::Indistinguishable(i, j)) => is_first_repeat(ks, i as int, j as int),
                Err(_) => false,
            },
        },
{
    if keys.len() > MAX_LEN {
        return Err(PrepareError::TooManyKeys);
    }
    let values = match keys_of(keys) {
        Ok(v) => v,
        Err(e) => return Err(PrepareError::Key(e)),
    };
    proof {
        lemma_views(values@);
    }
    match first_repeat(values.as_slice()) {
        Some((i, j)) => Err(PrepareError::Indistinguishable(i, j)),
        None => Ok(values),
    }
}

/// A negative literal of a signed type stands for the same key as the literal of the unsigned type of its
/// width that holds the same bits, `2^bits - magnitude`: signed and unsigned integers of one width with the
/// same bits hash identically.
pub proof fn lemma_negative_is_unsigned_bits(
    radix: u32,
    digits: Vec<u8>,
    suffix: String,
    unsigned_radix: u32,
    unsigned_digits: Vec<u8>,
    unsigned_suffix: String,
    width: u8,
)
    requires
        spec_int_type(suffix@, pointer_bytes()) == Some((true, width)),
        spec_int_type(unsigned_suffix@, pointer_bytes()) == Some((false, width)),
        digits_valid(radix, digits@),
        digits_valid(unsigned_radix, unsigned_digits@),
        0 < digits_value(radix as nat, digits@) <= pow2((bits_of(width) - 1) as nat),
        digits_value(unsigned_radix as nat, unsigned_digits@) == pow2(bits_of(width)) - digits_value(radix as nat, digits@),
    ensures
        spec_negated(KeyExpr::Lit(KeyLit::Int { radix, digits, suffix })) is Ok,
        spec_negated(KeyExpr::Lit(KeyLit::Int { radix, digits, suffix }))
            == spec_lit_key(KeyLit::Int { radix: unsigned_radix, digits: unsigned_digits, suffix: unsigned_suffix }),
{
    lemma_width_pows();
    let m = digits_value(radix as nat, digits@);
    let p = pow2(bits_of(width));
    lemma_pow2_strictly_increases((bits_of(width) - 1) as nat, bits_of(width));
    assert((p - m) % (p as int) == p - m) by (nonlinear_arith)
        requires
            0 < m < p,
    ;
}

/// Whether all keys of a list differ.
pub open spec fn all_distinct(keys: Seq<HashKeyView>) -> bool {
    forall|a: int, b: int| 0 <= a < b < keys.len() ==> keys[a] != keys[b]
}

/// Why the key expressions of one map cannot give its tables.
#[derive(Clone, Copy, Debug, PartialEq, Eq, Structural)]
pub enum PartsError {
    /// There are more than `MAX_LEN` keys.
    TooManyKeys,
    /// The first expression that stands for no key, and why.
    Key(KeyError),
    /// The key at the second position cannot be told apart from the one at the first: the two are equal,
    /// or they hash identically under a seed of the search.
    Indistinguishable(usize, usize),
    /// No perfect hash function was found within the search's budget.
    Exhausted,
}

/// Computes the tables of a map whose keys are written as expressions: interprets the keys, refuses a key
/// equal to an earlier one, and searches for a perfect hash function over the keys' hashes.
pub fn compute_parts(keys: &Vec<KeyExpr>) -> (r: Result<MapState, PartsError>)
    ensures
        keys@.len() > MAX_LEN ==> r == Err::<MapState, PartsError>(PartsError::TooManyKeys),
        keys@.len() <= MAX_LEN ==> match spec_keys_of(keys@) {
            Err(e) => r == Err::<MapState, PartsError>(PartsError::Key(e)),
            Ok(ks) => if !all_distinct(ks) {
                r matches Err(PartsError::Indistinguishable(i, j)) && is_first_repeat(ks, i as int, j as int)
            } else {
                exists|hk: Seq<HashKey>| #[trigger] views(hk) == ks && match r {
                    Ok(st) => construction_matches(hk, Ok(st)),
                    Err(PartsError::Indistinguishable(i, j)) => construction_matches(hk, Err(ConstructError::Identical(i, j))),
                    Err(PartsError::Exhausted) => construction_matches(hk, Err(ConstructError::Exhausted)),
                    Err(_) => false,
                }
            },
        },
{
    if keys.len() > MAX_LEN {
        return Err(PartsError::TooManyKeys);
    }
    let values = match keys_of(keys) {
        Ok(v) => v,
        Err(e) => return Err(PartsError::Key(e)),
    };
    proof {
        lemma_views(values@);
        lemma_keys_of_len(keys@);
    }
    if let Some((i, j)) = first_repeat(values.as_slice()) {
        return Err(PartsError::Indistinguishable(i, j));
    }
    let r = generate(values.as_slice());
    proof {
        assert(views(values@) == views(values@));
    }
    match r {
        Ok(st) => Ok(st),
        Err(ConstructError::Identical(i, j)) => Err(PartsError::Indistinguishable(i, j)),
        Err(ConstructError::Exhausted) => Err(PartsError::Exhausted),
    }
}

/// A list of expressions that all stand for keys stands for one key per expression.
proof fn lemma_keys_of_len(items: Seq<KeyExpr>)
    ensures
        spec_keys_of(items) matches Ok(ks) ==> ks.len() == items.len(),
    decreases items.len(),
{
    reveal_with_fuel(spec_keys_of, 2);
    if items.len() > 0 {
        lemma_keys_of_len(items.subrange(0, items.len() - 1));
    }
}

/// Whether an integer suffix spells the Rust integer type that is signed or not and `width` bytes wide:
/// `u8`, `u16`, `u32`, `u64`, `u128` and `usize` are unsigned, `i8`, `i16`, `i32`, `i64`, `i128` and `isize`
/// signed, of 1, 2, 4, 8 and 16 bytes and the pointer width.
pub open spec fn spells_int_type(suffix: Seq<char>, signed: bool, width: u8, pointer_bytes: u8) -> bool {
    ||| suffix == seq!['u', '8'] && !signed && width == 1
    ||| suffix == seq!['u', '1', '6'] && !signed && width == 2
    ||| suffix == seq!['u', '3', '2'] && !signed && width == 4
    ||| suffix == seq!['u', '6', '4'] && !signed && width == 8
    ||| suffix == seq!['u', '1', '2', '8'] && !signed && width == 16
    ||| suffix == seq!['u', 's', 'i', 'z', 'e'] && !signed && width == pointer_bytes
    ||| suffix == seq!['i', '8'] && signed && width == 1
    ||| suffix == seq!['i', '1', '6'] && signed && width == 2
    ||| suffix == seq!['i', '3', '2'] && signed && width == 4
    ||| suffix == seq!['i', '6', '4'] && signed && width == 8
    ||| suffix == seq!['i', '1', '2', '8'] && signed && width == 16
    ||| suffix == seq!['i', 's', 'i', 'z', 'e'] && signed && width == pointer_bytes
}

/// The suffixes of the integer types name those types, and no other suffix names one.
pub proof fn lemma_int_suffixes(suffix: Seq<char>, signed: bool, width: u8, pointer_bytes: u8)
    ensures
        spells_int_type(suffix, signed, width, pointer_bytes) ==> spec_int_type(suffix, pointer_bytes) == Some((signed, width)),
        spec_int_type(suffix, pointer_bytes) == Some((signed, width)) ==> spells_int_type(suffix, signed, width, pointer_bytes),
{
    reveal_strlit("u8");
    assert("u8"@ =~= seq!['u', '8']);
    reveal_strlit("u16");
    assert("u16"@ =~= seq!['u', '1', '6']);
    reveal_strlit("u32");
    assert("u32"@ =~= seq!['u', '3', '2']);
    reveal_strlit("u64");
    assert("u64"@ =~= seq!['u', '6', '4']);
    reveal_strlit("u128");
    assert("u128"@ =~= seq!['u', '1', '2', '8']);
    reveal_strlit("usize");
    assert("usize"@ =~= seq!['u', 's', 'i', 'z', 'e']);
    reveal_strlit("i8");
    assert("i8"@ =~= seq!['i', '8']);
    reveal_strlit("i16");
    assert("i16"@ =~= seq!['i', '1', '6']);
    reveal_strlit("i32");
    assert("i32"@ =~= seq!['i', '3', '2']);
    reveal_strlit("i64");
    assert("i64"@ =~= seq!['i', '6', '4']);
    reveal_strlit("i128");
    assert("i128"@ =~= seq!['i', '1', '2', '8']);
    reveal_strlit("isize");
    assert("isize"@ =~= seq!['i', 's', 'i', 'z', 'e']);
    if spells_int_type(suffix, signed, width, pointer_bytes) {
        assert(suffix != seq!['u', '8'] || spec_int_type(suffix, pointer_bytes) == Some((false, 1u8)));
        assert(suffix != seq!['u', '1', '6'] || spec_int_type(suffix, pointer_bytes) == Some((false, 2u8)));
        assert(suffix != seq!['u', '3', '2'] || spec_int_type(suffix, pointer_bytes) == Some((false, 4u8)));
        assert(suffix != seq!['u', '6', '4'] || spec_int_type(suffix, pointer_bytes) == Some((false, 8u8)));
        assert(suffix != seq!['u', '1', '2', '8'] || spec_int_type(suffix, pointer_bytes) == Some((false, 16u8)));
        assert(suffix != seq!['u', 's', 'i', 'z', 'e'] || spec_int_type(suffix, pointer_bytes) == Some((false, pointer_bytes)));
        assert(suffix != seq!['i', '8'] || spec_int_type(suffix, pointer_bytes) == Some((true, 1u8)));
        assert(suffix != seq!['i', '1', '6'] || spec_int_type(suffix, pointer_bytes) == Some((true, 2u8)));
        assert(suffix != seq!['i', '3', '2'] || spec_int_type(suffix, pointer_bytes) == Some((true, 4u8)));
        assert(suffix != seq!['i', '6', '4'] || spec_int_type(suffix, pointer_bytes) == Some((true, 8u8)));
        assert(suffix != seq!['i', '1', '2', '8'] || spec_int_type(suffix, pointer_bytes) == Some((true, 16u8)));
        assert(suffix != seq!['i', 's', 'i', 'z', 'e'] || spec_int_type(suffix, pointer_bytes) == Some((true, pointer_bytes)));
    }
}

/// A literal of a signed type of `width` bytes stands for its value when below `2^(8 width - 1)`, and its
/// negation for the bits `2^(8 width) - N` when `1 <= N <= 2^(8 width - 1)`; other magnitudes are out of
/// range.
pub proof fn lemma_signed_literals(radix: u32, digits: Vec<u8>, suffix: String, width: u8)
    requires
        spells_int_type(suffix@, true, width, pointer_bytes()),
        digits_valid(radix, digits@),
        digits_value(radix as nat, digits@) <= u128::MAX,
    ensures
        ({
            let n = digits_value(radix as nat, digits@);
            let half = pow2((8 * width - 1) as nat);
            let lit = KeyLit::Int { radix, digits, suffix };
            &&& n < half ==> spec_lit_key(lit) == Ok::<HashKeyView, KeyError>(HashKeyView::Int(spec_int_bits(width, n)))
            &&& n >= half ==> spec_lit_key(lit) == Err::<HashKeyView, KeyError>(KeyError::IntOutOfRange)
            &&& 1 <= n <= half ==> spec_negated(KeyExpr::Lit(lit))
                == Ok::<HashKeyView, KeyError>(HashKeyView::Int(spec_int_bits(width, (2 * half - n) as nat)))
            &&& n > half ==> spec_negated(KeyExpr::Lit(lit)) == Err::<HashKeyView, KeyError>(KeyError::IntOutOfRange)
        }),
{
    lemma_int_suffixes(suffix@, true, width, pointer_bytes());
    lemma_width_pows();
    let n = digits_value(radix as nat, digits@);
    let bits = bits_of(width);
    assert(8 * width - 1 == bits - 1);
    lemma_pow2_adds((bits - 1) as nat, 1);
    vstd::arithmetic::power2::lemma2_to64();
    let half = pow2((bits - 1) as nat);
    let p = pow2(bits);
    assert(p == 2 * half);
    if 1 <= n <= half {
        assert((p - n) % (p as int) == p - n) by (nonlinear_arith)
            requires
                0 < n < p,
        ;
    }
}

/// A literal of an unsigned type of `width` bytes stands for its value when below `2^(8 width)` and is out
/// of range otherwise, and no such literal can be negated.
pub proof fn lemma_unsigned_literals(radix: u32, digits: Vec<u8>, suffix: String, width: u8)
    requires
        spells_int_type(suffix@, false, width, pointer_bytes()),
        digits_valid(radix, digits@),
        digits_value(radix as nat, digits@) <= u128::MAX,
    ensures
        ({
            let n = digits_value(radix as nat, digits@);
            let lit = KeyLit::Int { radix, digits, suffix };
            &&& n < pow2((8 * width) as nat) ==> spec_lit_key(lit) == Ok::<HashKeyView, KeyError>(HashKeyView::Int(spec_int_bits(width, n)))
            &&& n >= pow2((8 * width) as nat) ==> spec_lit_key(lit) == Err::<HashKeyView, KeyError>(KeyError::IntOutOfRange)
            &&& spec_negated(KeyExpr::Lit(lit)) == Err::<HashKeyView, KeyError>(KeyError::NegatedUnsigned)
        }),
{
    lemma_int_suffixes(suffix@, false, width, pointer_bytes());
    lemma_width_pows();
}

} // verus!
