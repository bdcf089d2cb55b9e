use std::cmp::Ordering;

use jsonb::compare::compare;
use jsonb::decode::from_slice;
use jsonb::jsonpath::exception::ErrorKind;
use jsonb::number::{bits_of_magnitude, Number};
use jsonb::order::{convert_to_comparable, lex_sign};
use jsonb::value::Value;

/// A reader of JSON text for the tests: it turns a text into a value, the
/// members of an object in the order of their names.
struct JsonText<'a> {
    bytes: &'a [u8],
    at: usize,
}

impl<'a> JsonText<'a> {
    fn blanks(&mut self) {
        while self.at < self.bytes.len() && b" \t\r\n".contains(&self.bytes[self.at]) {
            self.at += 1;
        }
    }

    fn expect(&mut self, word: &str) {
        assert!(self.bytes[self.at..].starts_with(word.as_bytes()), "expected {}", word);
        self.at += word.len();
    }

    fn hex4(&mut self) -> u32 {
        let digits = std::str::from_utf8(&self.bytes[self.at..self.at + 4]).unwrap();
        self.at += 4;
        u32::from_str_radix(digits, 16).unwrap()
    }

    fn string(&mut self) -> String {
        self.expect("\"");
        let mut out: Vec<u8> = Vec::new();
        loop {
            let b = self.bytes[self.at];
            self.at += 1;
            match b {
                b'"' => break,
                b'\\' => {
                    let e = self.bytes[self.at];
                    self.at += 1;
                    let c = match e {
                        b'n' => '\n',
                        b't' => '\t',
                        b'r' => '\r',
                        b'b' => '\u{8}',
                        b'f' => '\u{c}',
                        b'/' => '/',
                        b'\\' => '\\',
                        b'"' => '"',
                        b'u' => {
                            let mut code = self.hex4();
                            if (0xD800..0xDC00).contains(&code) {
                                self.expect("\\u");
                                let low = self.hex4();
                                code = 0x10000 + ((code - 0xD800) << 10) + (low - 0xDC00);
                            }
                            char::from_u32(code).unwrap()
                        }
                        _ => panic!("unknown escape"),
                    };
                    let mut buf = [0u8; 4];
                    out.extend_from_slice(c.encode_utf8(&mut buf).as_bytes());
                }
                _ => out.push(b),
            }
        }
        String::from_utf8(out).unwrap()
    }

    fn number(&mut self) -> Number {
        let start = self.at;
        while self.at < self.bytes.len() && b"+-.eE0123456789".contains(&self.bytes[self.at]) {
            self.at += 1;
        }
        let text = std::str::from_utf8(&self.bytes[start..self.at]).unwrap();
        if let Ok(v) = text.parse::<u64>() {
            Number::UInt64(v)
        } else if let Ok(v) = text.parse::<i64>() {
            Number::Int64(v)
        } else {
            Number::Float64(text.parse::<f64>().unwrap().to_bits())
        }
    }

    fn value(&mut self) -> Value {
        self.blanks();
        let value = match self.bytes[self.at] {
            b'n' => {
                self.expect("null");
                Value::Null
            }
            b't' => {
                self.expect("true");
                Value::Bool(true)
            }
            b'f' => {
                self.expect("false");
                Value::Bool(false)
            }
            b'"' => Value::String(self.string()),
            b'[' => {
                self.expect("[");
                let mut items = Vec::new();
                self.blanks();
                if self.bytes[self.at] == b']' {
                    self.at += 1;
                } else {
                    loop {
                        items.push(self.value());
                        self.blanks();
                        if self.bytes[self.at] == b',' {
                            self.at += 1;
                        } else {
                            self.expect("]");
                            break;
                        }
                    }
                }
                Value::Array(items)
            }
            b'{' => {
                self.expect("{");
                let mut members: Vec<(String, Value)> = Vec::new();
                self.blanks();
                if self.bytes[self.at] == b'}' {
                    self.at += 1;
                } else {
                    loop {
                        self.blanks();
                        let key = self.string();
                        self.blanks();
                        self.expect(":");
                        let value = self.value();
                        members.retain(|(k, _)| *k != key);
                        members.push((key, value));
                        self.blanks();
                        if self.bytes[self.at] == b',' {
                            self.at += 1;
                        } else {
                            self.expect("}");
                            break;
                        }
                    }
                }
                members.sort_by(|a, b| a.0.cmp(&b.0));
                Value::Object(members)
            }
            _ => Value::Number(self.number()),
        };
        self.blanks();
        value
    }
}

fn parse_value(text: &[u8]) -> Value {
    let mut reader = JsonText { bytes: text, at: 0 };
    let value = reader.value();
    assert_eq!(reader.at, text.len());
    value
}

fn encode(value: &Value) -> Vec<u8> {
    let mut buf = Vec::new();
    value.write_to_vec(&mut buf).unwrap();
    buf
}

fn encoded(text: &str) -> Vec<u8> {
    encode(&parse_value(text.as_bytes()))
}

/// The order of two texts byte by byte, the shorter first where one is the
/// beginning of the other.
fn memcmp(a: &[u8], b: &[u8]) -> Ordering {
    let mut res = Ordering::Equal;
    for (lval, rval) in a.iter().zip(b.iter()) {
        res = lval.cmp(rval);
        match res {
            Ordering::Equal => {
                continue;
            }
            _ => {
                break;
            }
        }
    }
    if res == Ordering::Equal {
        res = a.len().cmp(&b.len());
    }
    res
}

#[test]
fn test_compare() {
    let sources = vec![
        (r#"null"#, r#"null"#, Ordering::Equal),
        (r#"null"#, r#"[1,2,3]"#, Ordering::Greater),
        (r#"null"#, r#"{"k":"v"}"#, Ordering::Greater),
        (r#"null"#, r#"123.45"#, Ordering::Greater),
        (r#"null"#, r#""abcd""#, Ordering::Greater),
        (r#"null"#, r#"true"#, Ordering::Greater),
        (r#"null"#, r#"false"#, Ordering::Greater),
        (r#""abcd""#, r#"null"#, Ordering::Less),
        (r#""abcd""#, r#""def""#, Ordering::Less),
        (r#""abcd""#, r#"123.45"#, Ordering::Greater),
        (r#""abcd""#, r#"true"#, Ordering::Greater),
        (r#""abcd""#, r#"false"#, Ordering::Greater),
        (r#"123"#, r#"12.3"#, Ordering::Greater),
        (r#"123"#, r#"123"#, Ordering::Equal),
        (r#"123"#, r#"456.7"#, Ordering::Less),
        (r#"12.3"#, r#"12"#, Ordering::Greater),
        (r#"-12.3"#, r#"12"#, Ordering::Less),
        (r#"123"#, r#"true"#, Ordering::Greater),
        (r#"123"#, r#"false"#, Ordering::Greater),
        (r#"true"#, r#"true"#, Ordering::Equal),
        (r#"true"#, r#"false"#, Ordering::Greater),
        (r#"false"#, r#"true"#, Ordering::Less),
        (r#"false"#, r#"false"#, Ordering::Equal),
        (r#"[1,2,3]"#, r#"null"#, Ordering::Less),
        (r#"[1,2,3]"#, r#"[1,2,3]"#, Ordering::Equal),
        (r#"[1,2,3]"#, r#"[1,2]"#, Ordering::Greater),
        (r#"[1,2,3]"#, r#"[]"#, Ordering::Greater),
        (r#"[1,2,3]"#, r#"[3]"#, Ordering::Less),
        (r#"[1,2,3]"#, r#"["a"]"#, Ordering::Less),
        (r#"[1,2,3]"#, r#"[true]"#, Ordering::Greater),
        (r#"[1,2,3]"#, r#"[1,2,3,4]"#, Ordering::Less),
        (r#"[1,2,3]"#, r#"{"k":"v"}"#, Ordering::Greater),
        (r#"[1,2,3]"#, r#""abcd""#, Ordering::Greater),
        (r#"[1,2,3]"#, r#"1234"#, Ordering::Greater),
        (r#"[1,2,3]"#, r#"12.34"#, Ordering::Greater),
        (r#"[1,2,3]"#, r#"true"#, Ordering::Greater),
        (r#"[1,2,3]"#, r#"false"#, Ordering::Greater),
        (r#"{"k1":"v1","k2":"v2"}"#, r#"null"#, Ordering::Less),
        (r#"{"k1":"v1","k2":"v2"}"#, r#"[1,2,3]"#, Ordering::Less),
        (
            r#"{"k1":"v1","k2":"v2"}"#,
            r#"{"k1":"v1","k2":"v2"}"#,
            Ordering::Equal,
        ),
        (
            r#"{"k1":"v1","k2":"v2"}"#,
            r#"{"k":"v1","k2":"v2"}"#,
            Ordering::Greater,
        ),
        (
            r#"{"k1":"v1","k2":"v2"}"#,
            r#"{"k1":"a1","k2":"v2"}"#,
            Ordering::Greater,
        ),
        (r#"{"k1":"v1","k2":"v2"}"#, r#"{"a":1}"#, Ordering::Greater),
        (r#"{"k1":"v1","k2":"v2"}"#, r#"{}"#, Ordering::Greater),
        (r#"{"k1":"v1","k2":"v2"}"#, r#""ab""#, Ordering::Greater),
        (r#"{"k1":"v1","k2":"v2"}"#, r#"123"#, Ordering::Greater),
        (r#"{"k1":"v1","k2":"v2"}"#, r#"12.34"#, Ordering::Greater),
        (r#"{"k1":"v1","k2":"v2"}"#, r#"true"#, Ordering::Greater),
        (r#"{"k1":"v1","k2":"v2"}"#, r#"false"#, Ordering::Greater),
    ];

    let mut lbuf: Vec<u8> = Vec::new();
    let mut lbuf2: Vec<u8> = Vec::new();
    let mut rbuf: Vec<u8> = Vec::new();
    let mut rbuf2: Vec<u8> = Vec::new();
    for (l, r, expect) in sources {
        let lvalue = parse_value(l.as_bytes());
        lvalue.write_to_vec(&mut lbuf).unwrap();
        let rvalue = parse_value(r.as_bytes());
        rvalue.write_to_vec(&mut rbuf).unwrap();

        let res = compare(&lbuf, &rbuf).unwrap();
        assert_eq!(res, expect);

        convert_to_comparable(&lbuf, &mut lbuf2);
        convert_to_comparable(&rbuf, &mut rbuf2);

        let mut res = Ordering::Equal;
        for (lval, rval) in lbuf2.iter().zip(rbuf2.iter()) {
            res = lval.cmp(rval);
            match res {
                Ordering::Equal => {
                    continue;
                }
                _ => {
                    break;
                }
            }
        }
        if res == Ordering::Equal {
            res = lbuf2.len().cmp(&rbuf2.len());
        }
        assert_eq!(res, expect);

        lbuf.clear();
        lbuf2.clear();
        rbuf.clear();
        rbuf2.clear();
    }
}

/// Numbers that test the corners of the order.
fn corner_numbers() -> Vec<Number> {
    let mut out = vec![
        Number::Int64(i64::MIN),
        Number::Int64(i64::MIN + 1),
        Number::Int64(-(1 << 53) - 1),
        Number::Int64(-(1 << 53)),
        Number::Int64(-(1 << 53) + 1),
        Number::Int64(-2),
        Number::Int64(-1),
        Number::Int64(0),
        Number::UInt64(0),
        Number::Int64(1),
        Number::UInt64(1),
        Number::UInt64(2),
        Number::UInt64(3),
        Number::UInt64((1 << 52) - 1),
        Number::UInt64(1 << 52),
        Number::UInt64((1 << 53) - 1),
        Number::UInt64(1 << 53),
        Number::UInt64((1 << 53) + 1),
        Number::UInt64((1 << 53) + 2),
        Number::UInt64((1 << 53) + 3),
        Number::UInt64((1 << 54) + 2),
        Number::UInt64((1 << 54) + 6),
        Number::Int64(i64::MAX),
        Number::UInt64(1 << 63),
        Number::UInt64((1 << 63) + 1024),
        Number::UInt64((1 << 63) + 1025),
        Number::UInt64((1 << 63) + 3072),
        Number::UInt64(u64::MAX - 2048),
        Number::UInt64(u64::MAX - 1024),
        Number::UInt64(u64::MAX - 1023),
        Number::UInt64(u64::MAX),
    ];
    for f in [
        f64::NEG_INFINITY,
        -1e300,
        -9223372036854775808.0,
        -9007199254740993.0,
        -2.5,
        -1.0,
        -f64::MIN_POSITIVE,
        -5e-324,
        -0.0,
        0.0,
        5e-324,
        f64::MIN_POSITIVE,
        0.5,
        1.0,
        1.5,
        12.3,
        123.45,
        9007199254740992.0,
        9007199254740994.0,
        9223372036854775808.0,
        18446744073709551615.0,
        1e300,
        f64::MAX,
        f64::INFINITY,
    ] {
        out.push(Number::Float64(f.to_bits()));
    }
    out
}

fn as_float(n: &Number) -> f64 {
    match *n {
        Number::Int64(v) => v as f64,
        Number::UInt64(v) => v as f64,
        Number::Float64(bits) => f64::from_bits(bits),
    }
}

#[test]
fn test_integers_turn_into_the_nearest_float() {
    for n in corner_numbers() {
        if let Number::UInt64(v) = n {
            assert_eq!(bits_of_magnitude(v), (v as f64).to_bits(), "{}", v);
        }
    }
    let mut v: u64 = 1;
    for _ in 0..2000 {
        // A walk through all sizes of integers.
        v = v.wrapping_mul(6364136223846793005).wrapping_add(1442695040888963407);
        for shift in [0, 7, 10, 11, 12, 13, 20, 40, 63] {
            let m = v >> shift;
            assert_eq!(bits_of_magnitude(m), (m as f64).to_bits(), "{}", m);
            let low = m & !1;
            assert_eq!(bits_of_magnitude(low), (low as f64).to_bits(), "{}", low);
        }
    }
    for e in 0..64 {
        for d in [-3i64, -2, -1, 0, 1, 2, 3] {
            let m = (1u64 << e).wrapping_add(d as u64);
            assert_eq!(bits_of_magnitude(m), (m as f64).to_bits(), "{}", m);
            let half = (3u64 << e).wrapping_add(d as u64);
            assert_eq!(bits_of_magnitude(half), (half as f64).to_bits(), "{}", half);
        }
    }
}

#[test]
fn test_number_keys_grow_with_the_numbers() {
    let numbers = corner_numbers();
    for a in &numbers {
        for b in &numbers {
            let expect = as_float(a).partial_cmp(&as_float(b)).unwrap();
            assert_eq!(a.key().cmp(&b.key()), expect, "{:?} {:?}", a, b);
            let res = compare(
                &encode(&Value::Number(*a)),
                &encode(&Value::Number(*b)),
            )
            .unwrap();
            assert_eq!(res, expect, "{:?} {:?}", a, b);
        }
    }
}

#[test]
fn test_projection_bytes() {
    let cases: Vec<(&str, Vec<u8>)> = vec![
        ("false", vec![1]),
        ("true", vec![2]),
        ("null", vec![7]),
        ("0", vec![3, 0x80, 0, 0, 0, 0, 0, 0, 0]),
        ("-0.0", vec![3, 0x80, 0, 0, 0, 0, 0, 0, 0]),
        ("1", vec![3, 0xbf, 0xf0, 0, 0, 0, 0, 0, 0]),
        ("1.0", vec![3, 0xbf, 0xf0, 0, 0, 0, 0, 0, 0]),
        ("-1", vec![3, 0x40, 0x0f, 0xff, 0xff, 0xff, 0xff, 0xff, 0xff]),
        ("\"ab\"", vec![4, b'a', b'b', 0]),
        ("\"\"", vec![4, 0]),
        ("[]", vec![6, 0]),
        ("{}", vec![5, 0]),
        ("[true,[null],\"a\"]", vec![6, 2, 6, 7, 0, 4, b'a', 0, 0]),
        ("{\"k\":false,\"l\":{}}", vec![5, 4, b'k', 0, 1, 4, b'l', 0, 5, 0, 0]),
    ];
    for (text, expect) in cases {
        let mut out = vec![0xEE];
        convert_to_comparable(&encoded(text), &mut out);
        assert_eq!(out[0], 0xEE);
        assert_eq!(&out[1..], &expect[..], "{}", text);
    }
    // A buffer that holds no value leaves the output as it was.
    let mut out = vec![1, 2];
    convert_to_comparable(b"[1,2]", &mut out);
    assert_eq!(out, vec![1, 2]);
}

#[test]
fn test_projection_keeps_order() {
    let texts = vec![
        r#"false"#, r#"true"#, r#"-1e9"#, r#"-3"#, r#"0"#, r#"0.5"#, r#"2"#, r#"2.5"#,
        r#"9007199254740993"#, r#"1e300"#, r#""""#, r#""a""#, r#""a b""#, r#""ab""#, r#""b""#,
        r#""é""#, r#""💎""#, r#"{}"#, r#"{"":1}"#, r#"{"a":1}"#, r#"{"a":1,"b":0}"#,
        r#"{"a":2}"#, r#"{"a":[]}"#, r#"{"ab":0}"#, r#"{"b":0}"#, r#"[]"#, r#"[false]"#,
        r#"[false,false]"#, r#"[1]"#, r#"[1,""]"#, r#"[1,[]]"#, r#"[1,null]"#, r#"["a"]"#,
        r#"["a","b"]"#, r#"["ab"]"#, r#"[{}]"#, r#"[{},1]"#, r#"[{"a":1}]"#, r#"[[]]"#,
        r#"[[],[]]"#, r#"[[1]]"#, r#"[null]"#, r#"null"#,
    ];
    for (i, a) in texts.iter().enumerate() {
        for (j, b) in texts.iter().enumerate() {
            let la = encoded(a);
            let lb = encoded(b);
            let res = compare(&la, &lb).unwrap();
            // The texts stand in rising order.
            assert_eq!(res, i.cmp(&j), "{} {}", a, b);
            let mut pa = Vec::new();
            let mut pb = Vec::new();
            convert_to_comparable(&la, &mut pa);
            convert_to_comparable(&lb, &mut pb);
            assert_eq!(memcmp(&pa, &pb), res, "{} {}", a, b);
            assert_eq!(pa == pb, res == Ordering::Equal);
        }
    }
}

#[test]
fn test_compare_numbers_of_different_kinds() {
    let one = encode(&Value::Number(Number::Int64(1)));
    let uno = encode(&Value::Number(Number::UInt64(1)));
    let eins = encode(&Value::Number(Number::Float64(1f64.to_bits())));
    assert_eq!(compare(&one, &uno).unwrap(), Ordering::Equal);
    assert_eq!(compare(&one, &eins).unwrap(), Ordering::Equal);
    // Integers are compared as the floats nearest to them.
    let big = encode(&Value::Number(Number::UInt64((1 << 53) + 1)));
    let flat = encode(&Value::Number(Number::UInt64(1 << 53)));
    assert_eq!(compare(&big, &flat).unwrap(), Ordering::Equal);
    // The two zeros are equal.
    let plus = encode(&Value::Number(Number::Float64(0f64.to_bits())));
    let minus = encode(&Value::Number(Number::Float64((-0f64).to_bits())));
    assert_eq!(compare(&plus, &minus).unwrap(), Ordering::Equal);
}

#[test]
fn test_compare_refuses_broken_buffers() {
    let good = encoded("[1]");
    assert_eq!(compare(&good, b"[1]").unwrap_err().kind, ErrorKind::InvalidEncoding);
    assert_eq!(compare(&[], &good).unwrap_err().kind, ErrorKind::InvalidEncoding);
    assert_eq!(compare(&good[..5], &good).unwrap_err().kind, ErrorKind::InvalidEncoding);
    assert!(from_slice(&good).is_ok());
}

#[test]
fn test_nan_is_not_encoded() {
    let nan = Value::Number(Number::Float64(f64::NAN.to_bits()));
    let mut out = vec![9];
    let error = nan.write_to_vec(&mut out).unwrap_err();
    assert_eq!(error.kind, ErrorKind::InvalidEncoding);
    assert_eq!(out, vec![9]);
    let nested = Value::Array(vec![Value::Null, Value::Number(Number::Float64(0x7ff0_0000_0000_0001))]);
    assert!(nested.write_to_vec(&mut out).is_err());
    // Infinity is a number.
    let inf = Value::Number(Number::Float64(f64::INFINITY.to_bits()));
    assert!(from_slice(&encode(&inf)).is_ok());
    // A buffer with a NaN holds no value.
    let buf = [0x20, 0, 0, 1, 0x10, 0, 0, 9, 2, 0x7f, 0xf8, 0, 0, 0, 0, 0, 0];
    assert!(from_slice(&buf).is_err());
}

#[test]
fn test_lex_sign() {
    assert_eq!(lex_sign(b"", b""), 0);
    assert_eq!(lex_sign(b"", b"a"), -1);
    assert_eq!(lex_sign(b"a", b""), 1);
    assert_eq!(lex_sign(b"abc", b"abd"), -1);
    assert_eq!(lex_sign(b"abd", b"abc"), 1);
    assert_eq!(lex_sign(b"ab", b"abc"), -1);
    assert_eq!(lex_sign(b"b", b"abc"), 1);
    assert_eq!(lex_sign(&[0xff], &[0x7f, 0xff]), 1);
}
