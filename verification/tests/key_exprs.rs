use lute::key_expr::{
    depends_on_pointer_width, expr_to_hash_key, first_repeat, hash_key_eq, hash_key_writes, hash_seq, int_type, keys_of,
    compute_parts, prepare_keys, HashKey, HashWrite, KeyError, PartsError, PrepareError,
    KeyExpr, KeyLit, RangeBound,
};
use lute::literal::IntBits;

/// Reads the small subset of Rust expression syntax that keys are written in.
struct Reader<'a> {
    src: &'a [u8],
    pos: usize,
}

impl<'a> Reader<'a> {
    fn peek(&self) -> Option<u8> {
        self.src.get(self.pos).copied()
    }

    fn starts(&self, s: &str) -> bool {
        self.src[self.pos..].starts_with(s.as_bytes())
    }

    fn skip_ws(&mut self) {
        while self.peek() == Some(b' ') {
            self.pos += 1;
        }
    }

    fn expr(&mut self) -> KeyExpr {
        self.skip_ws();
        let start = if self.starts("..") { None } else { Some(self.unary()) };
        self.skip_ws();
        if self.starts("..") {
            self.pos += 2;
            let closed = self.peek() == Some(b'=');
            if closed {
                self.pos += 1;
            }
            self.skip_ws();
            let end = match self.peek() {
                None | Some(b')') | Some(b']') | Some(b',') | Some(b';') => None,
                _ => Some(Box::new(self.unary())),
            };
            return KeyExpr::Range { closed, start: start.map(Box::new), end };
        }
        start.unwrap()
    }

    fn unary(&mut self) -> KeyExpr {
        self.skip_ws();
        match self.peek() {
            Some(b'-') => {
                self.pos += 1;
                KeyExpr::Neg(Box::new(self.unary()))
            }
            Some(b'&') => {
                self.pos += 1;
                KeyExpr::Ref(Box::new(self.unary()))
            }
            _ => self.primary(),
        }
    }

    fn list(&mut self, close: u8) -> (Vec<KeyExpr>, bool) {
        let mut items = Vec::new();
        let mut trailing = false;
        loop {
            self.skip_ws();
            if self.peek() == Some(close) {
                self.pos += 1;
                return (items, trailing);
            }
            items.push(self.expr());
            self.skip_ws();
            trailing = self.peek() == Some(b',');
            if trailing {
                self.pos += 1;
            }
        }
    }

    fn primary(&mut self) -> KeyExpr {
        self.skip_ws();
        let c = self.peek().unwrap();
        if c == b'(' {
            self.pos += 1;
            let (mut items, trailing) = self.list(b')');
            return if items.len() == 1 && !trailing { KeyExpr::Paren(Box::new(items.pop().unwrap())) } else { KeyExpr::Tuple(items) };
        }
        if c == b'[' {
            self.pos += 1;
            self.skip_ws();
            if self.peek() == Some(b']') {
                self.pos += 1;
                return KeyExpr::Array(Vec::new());
            }
            let first = self.expr();
            self.skip_ws();
            if self.peek() == Some(b';') {
                self.pos += 1;
                let len = self.expr();
                self.skip_ws();
                self.pos += 1;
                return KeyExpr::Repeat { element: Box::new(first), len: Box::new(len) };
            }
            let mut items = vec![first];
            if self.peek() == Some(b',') {
                self.pos += 1;
            }
            items.extend(self.list(b']').0);
            return KeyExpr::Array(items);
        }
        if c == b'|' {
            self.pos = self.src.len();
            return KeyExpr::Closure;
        }
        if c == b'"' {
            return KeyExpr::Lit(KeyLit::Str(String::from_utf8(self.quoted(b'"')).unwrap()));
        }
        if c == b'\'' {
            return KeyExpr::Lit(KeyLit::Char(String::from_utf8(self.quoted(b'\'')).unwrap().chars().next().unwrap()));
        }
        if self.starts("b\"") {
            self.pos += 1;
            return KeyExpr::Lit(KeyLit::ByteStr(self.quoted(b'"')));
        }
        if self.starts("c\"") {
            self.pos += 1;
            return KeyExpr::Lit(KeyLit::CStr(self.quoted(b'"')));
        }
        if self.starts("b'") {
            self.pos += 1;
            return KeyExpr::Lit(KeyLit::Byte(self.quoted(b'\'')[0]));
        }
        if c.is_ascii_digit() {
            return self.number();
        }
        let begin = self.pos;
        while self.peek().is_some_and(|c| c.is_ascii_alphanumeric() || c == b'_' || c == b':') {
            self.pos += 1;
        }
        match &self.src[begin..self.pos] {
            b"true" => KeyExpr::Lit(KeyLit::Bool(true)),
            b"false" => KeyExpr::Lit(KeyLit::Bool(false)),
            _ => KeyExpr::Path,
        }
    }

    fn quoted(&mut self, q: u8) -> Vec<u8> {
        self.pos += 1;
        let begin = self.pos;
        while self.peek() != Some(q) {
            self.pos += 1;
        }
        self.pos += 1;
        self.src[begin..self.pos - 1].to_vec()
    }

    fn number(&mut self) -> KeyExpr {
        let (radix, is_digit): (u32, fn(u8) -> bool) = if self.starts("0x") {
            self.pos += 2;
            (16, |c| c.is_ascii_hexdigit())
        } else if self.starts("0o") {
            self.pos += 2;
            (8, |c| c.is_ascii_digit())
        } else if self.starts("0b") {
            self.pos += 2;
            (2, |c| c.is_ascii_digit())
        } else {
            (10, |c| c.is_ascii_digit())
        };
        let mut digits = Vec::new();
        while let Some(c) = self.peek() {
            if c == b'_' {
                self.pos += 1;
            } else if is_digit(c) {
                digits.push(u8::try_from((c as char).to_digit(16).unwrap()).unwrap());
                self.pos += 1;
            } else {
                break;
            }
        }
        let mut float = false;
        if self.peek() == Some(b'.') && self.src.get(self.pos + 1).is_some_and(|c| c.is_ascii_digit()) {
            float = true;
            self.pos += 1;
            while self.peek().is_some_and(|c| c.is_ascii_digit()) {
                self.pos += 1;
            }
        }
        let begin = self.pos;
        while self.peek().is_some_and(|c| c.is_ascii_alphanumeric()) {
            self.pos += 1;
        }
        let suffix = String::from_utf8(self.src[begin..self.pos].to_vec()).unwrap();
        if float || suffix.starts_with('f') {
            return KeyExpr::Lit(KeyLit::Float);
        }
        KeyExpr::Lit(KeyLit::Int { radix, digits, suffix })
    }
}

fn parse(src: &str) -> KeyExpr {
    let mut reader = Reader { src: src.as_bytes(), pos: 0 };
    let e = reader.expr();
    reader.skip_ws();
    assert_eq!(reader.pos, src.len(), "unread input in {src:?}");
    e
}

fn hash_key(src: &str) -> Result<HashKey, KeyError> {
    expr_to_hash_key(&parse(src))
}

fn int_of(src: &str) -> (u8, u128) {
    match hash_key(src).unwrap() {
        HashKey::Int(bits) => match bits {
            IntBits::W8(v) => (1, u128::from(v)),
            IntBits::W16(v) => (2, u128::from(v)),
            IntBits::W32(v) => (4, u128::from(v)),
            IntBits::W64(v) => (8, u128::from(v)),
            IntBits::W128(v) => (16, v),
        },
        other => panic!("expected integer key from {src:?}, got {other:?}"),
    }
}

#[test]
fn integer_radixes_and_underscores() {
    assert_eq!(int_of("255u8"), (1, 255));
    assert_eq!(int_of("0xFFu8"), (1, 255));
    assert_eq!(int_of("0o17u8"), (1, 0o17));
    assert_eq!(int_of("0b1010u8"), (1, 0b1010));
    assert_eq!(int_of("1_000u16"), (2, 1000));
    assert_eq!(int_of("0xDEAD_BEEFu32"), (4, 0xDEAD_BEEF));
}

#[test]
fn integer_widths_and_signs() {
    assert_eq!(int_of("1u32"), (4, 1));
    assert_eq!(int_of("1i32"), (4, 1));
    assert_eq!(int_of("1u64"), (8, 1));
    assert_eq!(int_of("b'A'"), (1, 65));
    assert_eq!(int_of("2147483647i32"), (4, 0x7FFF_FFFF));
    assert_eq!(int_of("4294967295u32"), (4, 0xFFFF_FFFF));
}

#[test]
fn integers_128_bit() {
    assert_eq!(int_of("0u128"), (16, 0));
    assert_eq!(int_of("340282366920938463463374607431768211455u128"), (16, u128::MAX));
    assert_eq!(int_of("170141183460469231731687303715884105727i128"), (16, (1u128 << 127) - 1));
    assert_eq!(int_of("-170141183460469231731687303715884105728i128"), (16, 1u128 << 127));
}

#[test]
fn negative_integers_use_twos_complement() {
    assert_eq!(int_of("-1i32"), (4, 0xFFFF_FFFF));
    assert_eq!(int_of("-128i8"), (1, 0x80));
    assert_eq!(int_of("-2147483648i32"), (4, 0x8000_0000));
}

#[test]
fn non_integer_literals() {
    assert_eq!(hash_key("\"hi\"").unwrap(), HashKey::Str("hi".to_owned()));
    assert_eq!(hash_key("b\"hi\"").unwrap(), HashKey::Bytes(b"hi".to_vec()));
    assert_eq!(hash_key("c\"hi\"").unwrap(), HashKey::CStr(b"hi".to_vec()));
    assert_eq!(hash_key("'a'").unwrap(), HashKey::Char('a'));
    assert_eq!(hash_key("true").unwrap(), HashKey::Bool(true));
}

#[test]
fn composite_keys() {
    assert_eq!(
        hash_key("[1u8, 2u8, 3u8]").unwrap(),
        HashKey::List(vec![HashKey::Int(IntBits::W8(1)), HashKey::Int(IntBits::W8(2)), HashKey::Int(IntBits::W8(3))])
    );
    assert_eq!(
        hash_key("0u16..10u16").unwrap(),
        HashKey::Range {
            closed: false,
            start: Some(RangeBound::Int(IntBits::W16(0))),
            end: Some(RangeBound::Int(IntBits::W16(10))),
        }
    );
    assert_eq!(
        hash_key("'a'..='z'").unwrap(),
        HashKey::Range { closed: true, start: Some(RangeBound::Char('a')), end: Some(RangeBound::Char('z')) }
    );
    assert_eq!(
        hash_key("..5u8").unwrap(),
        HashKey::Range { closed: false, start: None, end: Some(RangeBound::Int(IntBits::W8(5))) }
    );
    assert_eq!(hash_key("()").unwrap(), HashKey::Tuple(vec![]));
}

#[test]
fn tuples_nest_and_are_transparent_to_references() {
    assert_eq!(
        hash_key("(\"a\", 1u32)").unwrap(),
        HashKey::Tuple(vec![HashKey::Str("a".to_owned()), HashKey::Int(IntBits::W32(1))])
    );
    assert_eq!(
        hash_key("&((1u8, 2u8), true)").unwrap(),
        HashKey::Tuple(vec![
            HashKey::Tuple(vec![HashKey::Int(IntBits::W8(1)), HashKey::Int(IntBits::W8(2))]),
            HashKey::Bool(true),
        ])
    );
}

#[test]
fn repeat_arrays_and_parenthesized_negation() {
    assert_eq!(
        hash_key("[7u16; 3]").unwrap(),
        HashKey::List(vec![
            HashKey::Int(IntBits::W16(7)),
            HashKey::Int(IntBits::W16(7)),
            HashKey::Int(IntBits::W16(7)),
        ])
    );
    assert_eq!(hash_key("[0u8; 0]").unwrap(), HashKey::Bytes(vec![]));
    assert_eq!(hash_key("[0u128; 0]").unwrap(), HashKey::Bytes(vec![]));
    assert_eq!(hash_key("[false; 0]").unwrap(), HashKey::List(vec![]));
}

#[test]
fn parenthesized_ints() {
    assert_eq!(hash_key("-(1i32)").unwrap(), hash_key("-1i32").unwrap());
    assert_eq!(hash_key("(5u8)").unwrap(), hash_key("5u8").unwrap());
}

#[test]
fn pointer_width_dependence() {
    let depends = |src: &str| depends_on_pointer_width(&parse(src));
    for src in ["1usize", "-1isize", "b\"hi\"", "c\"hi\"", "[1u8, 2u8]", "&[1u32, 2u32]", "[0u8; 4]", "(1u8, [2u8, 3u8])", "(b\"x\", 1u16)"] {
        assert!(depends(src), "{src} should depend on pointer width");
    }
    for src in ["1u64", "1u8", "\"hi\"", "'a'", "true", "b'A'", "(1u8, 2u16)", "0u16..10u16", "'a'..'z'"] {
        assert!(!depends(src), "{src} should not depend on pointer width");
    }
}

#[test]
fn rejected_keys() {
    assert!(hash_key("1").is_err(), "unsuffixed integer");
    assert!(hash_key("1.0f32").is_err(), "float");
    assert!(hash_key("-1u32").is_err(), "negated unsigned");
    assert!(hash_key("-b\"x\"").is_err(), "negated byte string");
    assert!(hash_key("256u8").is_err(), "out of range");
    assert!(hash_key("2147483648i32").is_err(), "positive overflow");
    assert!(hash_key("-2147483649i32").is_err(), "below i32::MIN");
    assert!(hash_key("340282366920938463463374607431768211456u128").is_err(), "exceeds u128");
    assert!(hash_key("i32::MAX").is_err(), "associated constant");
    assert!(hash_key("SOME_CONST").is_err(), "named constant / path");
    assert!(hash_key("[]").is_err(), "empty array; no element type");
    assert!(hash_key("&[]").is_err(), "bare empty slice reference");
    assert!(hash_key("[0u8; SIZE]").is_err(), "non-literal repeat count");
    assert!(hash_key("(1, 2u8)").is_err(), "unsuffixed integer in tuple");
    assert!(hash_key("|x: u8| x").is_err(), "closure");
    assert!(hash_key("\"a\"..\"z\"").is_err(), "string range bounds");
    assert!(hash_key("0u8..5u16").is_err(), "mismatched range bound widths");
}

#[test]
fn each_rejection_names_its_reason() {
    assert_eq!(hash_key("1"), Err(KeyError::UnsuffixedInt));
    assert_eq!(hash_key("1u7"), Err(KeyError::UnknownIntSuffix));
    assert_eq!(hash_key("1.0f32"), Err(KeyError::FloatKey));
    assert_eq!(hash_key("-1u32"), Err(KeyError::NegatedUnsigned));
    assert_eq!(hash_key("-b\"x\""), Err(KeyError::NegatedNonInt));
    assert_eq!(hash_key("256u8"), Err(KeyError::IntOutOfRange));
    assert_eq!(hash_key("-129i8"), Err(KeyError::IntOutOfRange));
    assert_eq!(hash_key("340282366920938463463374607431768211456u128"), Err(KeyError::IntTooLarge));
    assert_eq!(hash_key("SOME_CONST"), Err(KeyError::PathKey));
    assert_eq!(hash_key("[]"), Err(KeyError::EmptyArray));
    assert_eq!(hash_key("[0u8; SIZE]"), Err(KeyError::NonLiteralRepeatCount));
    assert_eq!(hash_key("[0u8; -1i32]"), Err(KeyError::NegativeRepeatCount));
    assert_eq!(hash_key("|x: u8| x"), Err(KeyError::ClosureKey));
    assert_eq!(hash_key("\"a\"..\"z\""), Err(KeyError::RangeBoundKind));
    assert_eq!(hash_key("0u8..5u16"), Err(KeyError::RangeBoundMismatch));
    assert_eq!(hash_key("0u8..'a'"), Err(KeyError::RangeBoundMismatch));
    // The first failing item of a tuple decides the error.
    assert_eq!(hash_key("(1, 256u8)"), Err(KeyError::UnsuffixedInt));
    let digits = KeyExpr::Lit(KeyLit::Int { radix: 10, digits: vec![1, 12], suffix: "u8".to_owned() });
    assert_eq!(expr_to_hash_key(&digits), Err(KeyError::MalformedInt));
    assert_eq!(expr_to_hash_key(&KeyExpr::Cast), Err(KeyError::CastKey));
}

#[test]
fn integer_suffixes() {
    assert_eq!(int_type("u8", 8), Some((false, 1)));
    assert_eq!(int_type("i128", 8), Some((true, 16)));
    assert_eq!(int_type("usize", 4), Some((false, 4)));
    assert_eq!(int_type("isize", 8), Some((true, 8)));
    assert_eq!(int_type("", 8), None);
    assert_eq!(int_type("u256", 8), None);
}

#[test]
fn pointer_sized_integers_take_the_target_width() {
    let width = u8::try_from(usize::BITS / 8).unwrap();
    assert_eq!(int_of("7usize").0, width);
    assert_eq!(int_of("-1isize"), (width, if width == 8 { u128::from(u64::MAX) } else { u128::from(u32::MAX) }));
}

#[test]
fn integer_runs_hash_in_bulk() {
    let items = vec![HashKey::Int(IntBits::W16(1)), HashKey::Int(IntBits::W16(2))];
    assert_eq!(hash_seq(&items), vec![HashWrite::IntSlice(vec![IntBits::W16(1), IntBits::W16(2)])]);
}

#[test]
fn other_lists_hash_their_length_then_items() {
    let mixed = vec![HashKey::Int(IntBits::W16(1)), HashKey::Int(IntBits::W32(2))];
    assert_eq!(
        hash_seq(&mixed),
        vec![HashWrite::Len(2), HashWrite::Int(IntBits::W16(1)), HashWrite::Int(IntBits::W32(2))]
    );
    assert_eq!(hash_seq(&[]), vec![HashWrite::Len(0)]);
    let strs = vec![HashKey::Str("a".to_owned()), HashKey::Bool(true)];
    assert_eq!(hash_seq(&strs), vec![HashWrite::Len(2), HashWrite::Str("a".to_owned()), HashWrite::Bool(true)]);
}

#[test]
fn tuples_hash_their_fields_in_order() {
    let key = hash_key("(\"a\", [1u8, 2u8], ('x', true))").unwrap();
    assert_eq!(
        hash_key_writes(&key),
        vec![
            HashWrite::Str("a".to_owned()),
            HashWrite::IntSlice(vec![IntBits::W8(1), IntBits::W8(2)]),
            HashWrite::Char('x'),
            HashWrite::Bool(true),
        ]
    );
    let nested = hash_key("[(1u8, 'a'), (2u8, 'b')]").unwrap();
    assert_eq!(
        hash_key_writes(&nested),
        vec![
            HashWrite::Len(2),
            HashWrite::Int(IntBits::W8(1)),
            HashWrite::Char('a'),
            HashWrite::Int(IntBits::W8(2)),
            HashWrite::Char('b'),
        ]
    );
}

#[test]
fn equal_keys_are_found_in_order() {
    let keys: Vec<HashKey> =
        ["1u8", "(2u8, 'a')", "3u8", "(2u8, 'a')", "1u8"].iter().map(|src| hash_key(src).unwrap()).collect();
    assert!(hash_key_eq(&keys[1], &keys[3]));
    assert!(!hash_key_eq(&keys[0], &keys[2]));
    assert_eq!(first_repeat(&keys), Some((1, 3)));
    assert_eq!(first_repeat(&keys[..3]), None);
    // A signed and an unsigned integer with the same bits are one key.
    let same_bits = [hash_key("-1i8").unwrap(), hash_key("255u8").unwrap()];
    assert_eq!(first_repeat(&same_bits), Some((0, 1)));
}

#[test]
fn lists_of_key_expressions() {
    let items = vec![parse("1u8"), parse("\"x\"")];
    assert_eq!(keys_of(&items), Ok(vec![HashKey::Int(IntBits::W8(1)), HashKey::Str("x".to_owned())]));
    let bad = vec![parse("1u8"), parse("2"), parse("1.5f64")];
    assert_eq!(keys_of(&bad), Err(KeyError::UnsuffixedInt));
}

#[test]
fn repeat_arrays_stand_for_written_out_arrays() {
    assert_eq!(hash_key("[7u16; 3]"), hash_key("[7u16, 7u16, 7u16]"));
    assert_eq!(hash_key("[(1u8, 'a'); 2]"), hash_key("[(1u8, 'a'), (1u8, 'a')]"));
    assert_eq!(hash_key("[1; 2]"), Err(KeyError::UnsuffixedInt));
    assert_eq!(hash_key("[1, 1]"), Err(KeyError::UnsuffixedInt));
}

#[test]
fn preparing_the_keys_of_one_map() {
    let keys: Vec<KeyExpr> = ["1u8", "\"a\"", "(1u8, 'b')"].iter().map(|src| parse(src)).collect();
    assert_eq!(prepare_keys(&keys).map(|v| v.len()), Ok(3));
    let repeated: Vec<KeyExpr> = ["1u8", "2u8", "(1u8)", "2u8"].iter().map(|src| parse(src)).collect();
    assert_eq!(prepare_keys(&repeated).err(), Some(PrepareError::Indistinguishable(0, 2)));
    let refused: Vec<KeyExpr> = ["1u8", "SOME_CONST"].iter().map(|src| parse(src)).collect();
    assert_eq!(prepare_keys(&refused).err(), Some(PrepareError::Key(KeyError::PathKey)));
    let too_many: Vec<KeyExpr> = (0..=lute::MAX_LEN).map(|_| KeyExpr::Path).collect();
    assert_eq!(prepare_keys(&too_many).err(), Some(PrepareError::TooManyKeys));
}

#[test]
fn negative_literals_hold_the_bits_of_unsigned_ones() {
    assert_eq!(hash_key("-1i8"), hash_key("255u8"));
    assert_eq!(hash_key("-128i8"), hash_key("128u8"));
    assert_eq!(hash_key("-1i64"), hash_key("18446744073709551615u64"));
    assert_eq!(hash_key("-2i128"), hash_key("0xFFFF_FFFF_FFFF_FFFF_FFFF_FFFF_FFFF_FFFEu128"));
}

#[test]
fn parts_over_key_expressions() {
    let keys: Vec<KeyExpr> = (0u32..20).map(|k| parse(&format!("{k}u32"))).collect();
    let state = compute_parts(&keys).expect("distinct keys build");
    let mut order = state.indices.clone();
    order.sort_unstable();
    assert_eq!(order, (0u16..20).collect::<Vec<_>>());
    // The tables hold at run time for the keys that the expressions stand for.
    let entries: &'static [(lute::Key, u32)] =
        Vec::leak(state.indices.iter().map(|&i| (lute::Key::U32(u32::from(i)), u32::from(i))).collect());
    let pilots: &'static [u16] = Vec::leak(state.pilots.clone());
    let remap: &'static [u16] = Vec::leak(state.remap.clone());
    let map = lute::FrozenMap::from_baked_parts_checked(state.seed, pilots, remap, entries).expect("the parts hold");
    for k in 0u32..20 {
        assert_eq!(map.get(&lute::Key::U32(k)), Some(&k));
    }
    let composite: Vec<KeyExpr> = ["(1u8, 'a')", "[1u16, 2u16]", "0u8..5u8", "\"s\"", "c\"s\""].iter().map(|s| parse(s)).collect();
    assert!(compute_parts(&composite).is_ok());
}

#[test]
fn parts_refuse_keys_that_cannot_be_told_apart() {
    let same_bytes: Vec<KeyExpr> = ["b\"hi\"", "&[104u8, 105u8]"].iter().map(|s| parse(s)).collect();
    assert_eq!(compute_parts(&same_bytes).err(), Some(PartsError::Indistinguishable(0, 1)));
    let equal: Vec<KeyExpr> = ["1u8", "2u8", "(1u8)"].iter().map(|s| parse(s)).collect();
    assert_eq!(compute_parts(&equal).err(), Some(PartsError::Indistinguishable(0, 2)));
    let refused: Vec<KeyExpr> = ["1u8", "1.5f32"].iter().map(|s| parse(s)).collect();
    assert_eq!(compute_parts(&refused).err(), Some(PartsError::Key(KeyError::FloatKey)));
    let too_many: Vec<KeyExpr> = (0..=lute::MAX_LEN).map(|_| KeyExpr::Path).collect();
    assert_eq!(compute_parts(&too_many).err(), Some(PartsError::TooManyKeys));
}
