use jsonb::decode::to_f64_bits;
use jsonb::jsonpath::exception::ErrorKind;
use jsonb::number::Number;
use jsonb::text::{push_decimal, push_quoted, to_str_with, to_string_with};
use jsonb::value::Value;

/// A reader of JSON text for the tests: it turns a text into a value, the
/// members of an object in the order of their names.
struct JsonSource<'a> {
    bytes: &'a [u8],
    at: usize,
}

impl<'a> JsonSource<'a> {
    fn blanks(&mut self) {
        while self.at < self.bytes.len() && b" \t\r\n".contains(&self.bytes[self.at]) {
            self.at += 1;
        }
    }

    fn expect(&mut self, word: &str) {
        assert!(self.bytes[self.at..].starts_with(word.as_bytes()), "expected {}", word);
        self.at += word.len();
    }

    fn hex4(&mut self) -> u32 {
        let digits = std::str::from_utf8(&self.bytes[self.at..self.at + 4]).unwrap();
        self.at += 4;
        u32::from_str_radix(digits, 16).unwrap()
    }

    fn string(&mut self) -> String {
        self.expect("\"");
        let mut out: Vec<u8> = Vec::new();
        loop {
            let b = self.bytes[self.at];
            self.at += 1;
            match b {
                b'"' => break,
                b'\\' => {
                    let e = self.bytes[self.at];
                    self.at += 1;
                    let c = match e {
                        b'n' => '\n',
                        b't' => '\t',
                        b'r' => '\r',
                        b'b' => '\u{8}',
                        b'f' => '\u{c}',
                        b'/' => '/',
                        b'\\' => '\\',
                        b'"' => '"',
                        b'u' => {
                            let mut code = self.hex4();
                            if (0xD800..0xDC00).contains(&code) {
                                self.expect("\\u");
                                let low = self.hex4();
                                code = 0x10000 + ((code - 0xD800) << 10) + (low - 0xDC00);
                            }
                            char::from_u32(code).unwrap()
                        }
                        _ => panic!("unknown escape"),
                    };
                    let mut buf = [0u8; 4];
                    out.extend_from_slice(c.encode_utf8(&mut buf).as_bytes());
                }
                _ => out.push(b),
            }
        }
        String::from_utf8(out).unwrap()
    }

    fn number(&mut self) -> Number {
        let start = self.at;
        while self.at < self.bytes.len() && b"+-.eE0123456789".contains(&self.bytes[self.at]) {
            self.at += 1;
        }
        let text = std::str::from_utf8(&self.bytes[start..self.at]).unwrap();
        if let Ok(v) = text.parse::<u64>() {
            Number::UInt64(v)
        } else if let Ok(v) = text.parse::<i64>() {
            Number::Int64(v)
        } else {
            Number::Float64(text.parse::<f64>().unwrap().to_bits())
        }
    }

    fn value(&mut self) -> Value {
        self.blanks();
        let value = match self.bytes[self.at] {
            b'n' => {
                self.expect("null");
                Value::Null
            }
            b't' => {
                self.expect("true");
                Value::Bool(true)
            }
            b'f' => {
                self.expect("false");
                Value::Bool(false)
            }
            b'"' => Value::String(self.string()),
            b'[' => {
                self.expect("[");
                let mut items = Vec::new();
                self.blanks();
                if self.bytes[self.at] == b']' {
                    self.at += 1;
                } else {
                    loop {
                        items.push(self.value());
                        self.blanks();
                        if self.bytes[self.at] == b',' {
                            self.at += 1;
                        } else {
                            self.expect("]");
                            break;
                        }
                    }
                }
                Value::Array(items)
            }
            b'{' => {
                self.expect("{");
                let mut members: Vec<(String, Value)> = Vec::new();
                self.blanks();
                if self.bytes[self.at] == b'}' {
                    self.at += 1;
                } else {
                    loop {
                        self.blanks();
                        let key = self.string();
                        self.blanks();
                        self.expect(":");
                        let value = self.value();
                        members.retain(|(k, _)| *k != key);
                        members.push((key, value));
                        self.blanks();
                        if self.bytes[self.at] == b',' {
                            self.at += 1;
                        } else {
                            self.expect("}");
                            break;
                        }
                    }
                }
                members.sort_by(|a, b| a.0.cmp(&b.0));
                Value::Object(members)
            }
            _ => Value::Number(self.number()),
        };
        self.blanks();
        value
    }
}

fn parse_value(text: &[u8]) -> Value {
    let mut reader = JsonSource { bytes: text, at: 0 };
    let value = reader.value();
    assert_eq!(reader.at, text.len());
    value
}

fn encode(value: &Value) -> Vec<u8> {
    let mut buf = Vec::new();
    value.write_to_vec(&mut buf).unwrap();
    buf
}

fn encoded(text: &str) -> Vec<u8> {
    encode(&parse_value(text.as_bytes()))
}

/// The table of the texts of the floating-point numbers in a value.
fn float_texts(value: &Value, table: &mut Vec<(u64, String)>) {
    match value {
        Value::Number(Number::Float64(bits)) => {
            table.push((*bits, format!("{:?}", f64::from_bits(*bits))));
        }
        Value::Array(items) => {
            for item in items {
                float_texts(item, table);
            }
        }
        Value::Object(members) => {
            for (_, item) in members {
                float_texts(item, table);
            }
        }
        _ => {}
    }
}

/// The value that the text spells as JSON text again.
fn to_string(buf: &[u8], value: &Value) -> String {
    let mut table = Vec::new();
    float_texts(value, &mut table);
    to_string_with(buf, &table).unwrap()
}

#[test]
fn test_to_string() {
    let sources = vec![
        (r#"null"#, r#"null"#),
        (r#"true"#, r#"true"#),
        (r#"false"#, r#"false"#),
        (r#"1234567"#, r#"1234567"#),
        (r#"-1234567"#, r#"-1234567"#),
        (r#"123.4567"#, r#"123.4567"#),
        (r#""abcdef""#, r#""abcdef""#),
        (r#""ab\n\"\uD83D\uDC8E测试""#, r#""ab\n\"💎测试""#),
        (r#""မြန်မာဘာသာ""#, r#""မြန်မာဘာသာ""#),
        (r#""⚠️✅❌""#, r#""⚠️✅❌""#),
        (r#"[1,2,3,4]"#, r#"[1,2,3,4]"#),
        (
            r#"["a","b",true,false,[1,2,3],{"a":"b"}]"#,
            r#"["a","b",true,false,[1,2,3],{"a":"b"}]"#,
        ),
        (
            r#"{"k1":"v1","k2":[1,2,3],"k3":{"a":"b"}}"#,
            r#"{"k1":"v1","k2":[1,2,3],"k3":{"a":"b"}}"#,
        ),
    ];
    let mut buf: Vec<u8> = Vec::new();
    for (s, expect) in sources {
        let value = parse_value(s.as_bytes());
        value.write_to_vec(&mut buf).unwrap();
        let res = to_string(&buf, &value);
        assert_eq!(res, expect);
        buf.clear();
    }
}

#[test]
fn test_to_string_escapes() {
    let text = "a\"b\\c/\u{8}\u{c}\n\r\t\u{0}\u{1f}\u{7f} é💎";
    let value = Value::String(text.to_string());
    let mut buf = Vec::new();
    value.write_to_vec(&mut buf).unwrap();
    assert_eq!(
        to_string(&buf, &value),
        "\"a\\\"b\\\\c/\\b\\f\\n\\r\\t\\u0000\\u001f\u{7f} é💎\""
    );
    let mut out = String::from("x");
    push_quoted(&mut out, "");
    assert_eq!(out, "x\"\"");
    // Names are escaped like strings.
    let value = Value::Object(vec![("a\nb".to_string(), Value::Null)]);
    let mut buf = Vec::new();
    value.write_to_vec(&mut buf).unwrap();
    assert_eq!(to_string(&buf, &value), "{\"a\\nb\":null}");
}

#[test]
fn test_to_string_is_read_back() {
    let sources = vec![
        r#"[]"#,
        r#"{}"#,
        r#"[[],{},[{}]]"#,
        r#"{"a":{"b":{"c":[null,false,-0.5,"x"]}},"d":18446744073709551615}"#,
        r#"[-9223372036854775808,9223372036854775807,0,-1,10,99,100]"#,
    ];
    for s in sources {
        let value = parse_value(s.as_bytes());
        let mut buf = Vec::new();
        value.write_to_vec(&mut buf).unwrap();
        let text = to_string(&buf, &value);
        assert_eq!(text, s);
        assert_eq!(parse_value(text.as_bytes()), value);
    }
}

#[test]
fn test_to_string_needs_the_text_of_every_float() {
    let value = parse_value(b"[1,2.5,[3.5]]");
    let mut buf = Vec::new();
    value.write_to_vec(&mut buf).unwrap();
    assert_eq!(to_string_with(&buf, &Vec::new()), None);
    let half = vec![(2.5f64.to_bits(), "2.5".to_string())];
    assert_eq!(to_string_with(&buf, &half), None);
    let table = vec![
        (3.5f64.to_bits(), "3.5".to_string()),
        (2.5f64.to_bits(), "2.5".to_string()),
        (2.5f64.to_bits(), "never".to_string()),
    ];
    assert_eq!(to_string_with(&buf, &table).unwrap(), "[1,2.5,[3.5]]");
    // A buffer that holds no value has no text.
    assert_eq!(to_string_with(b"[1]", &table), None);
    assert_eq!(to_string_with(&buf[..buf.len() - 1], &table), None);
}

#[test]
fn test_push_decimal() {
    for (n, expect) in [
        (0u64, "0"),
        (7, "7"),
        (10, "10"),
        (109, "109"),
        (1234567890, "1234567890"),
        (u64::MAX, "18446744073709551615"),
    ] {
        let mut out = String::from("n=");
        push_decimal(&mut out, n);
        assert_eq!(out, format!("n={}", expect));
    }
}

#[test]
fn test_to_str_with() {
    let table = vec![(1.5f64.to_bits(), "1.5".to_string())];
    let cases = vec![
        (r#""""#, Ok("")),
        (r#""a\"b""#, Ok("a\"b")),
        (r#"true"#, Ok("true")),
        (r#"false"#, Ok("false")),
        (r#"-12"#, Ok("-12")),
        (r#"18446744073709551615"#, Ok("18446744073709551615")),
        (r#"1.5"#, Ok("1.5")),
        (r#"2.5"#, Err(ErrorKind::TypeMismatch)),
        (r#"null"#, Err(ErrorKind::TypeMismatch)),
        (r#"[]"#, Err(ErrorKind::TypeMismatch)),
        (r#"{"a":1}"#, Err(ErrorKind::TypeMismatch)),
    ];
    for (s, expect) in cases {
        let value = parse_value(s.as_bytes());
        let mut buf = Vec::new();
        value.write_to_vec(&mut buf).unwrap();
        match (to_str_with(&buf, &table), expect) {
            (Ok(text), Ok(expect)) => assert_eq!(text, expect),
            (Err(error), Err(kind)) => assert_eq!(error.kind, kind),
            (res, _) => panic!("{}: {:?}", s, res.map_err(|e| e.kind)),
        }
    }
    assert_eq!(to_str_with(b"", &table).unwrap_err().kind, ErrorKind::InvalidEncoding);
}

#[test]
fn test_to_f64_bits() {
    let cases: Vec<(Value, Option<f64>)> = vec![
        (Value::Bool(false), Some(0.0)),
        (Value::Bool(true), Some(1.0)),
        (Value::Number(Number::Int64(-3)), Some(-3.0)),
        (Value::Number(Number::Int64(i64::MIN)), Some(-9223372036854775808.0)),
        (Value::Number(Number::UInt64(u64::MAX)), Some(18446744073709551615.0)),
        (Value::Number(Number::UInt64((1 << 53) + 1)), Some(9007199254740992.0)),
        (Value::Number(Number::Float64(0.1f64.to_bits())), Some(0.1)),
        (Value::Null, None),
        (Value::String("1".to_string()), None),
        (Value::Array(vec![]), None),
    ];
    for (value, expect) in cases {
        let mut buf = Vec::new();
        value.write_to_vec(&mut buf).unwrap();
        match expect {
            Some(f) => assert_eq!(to_f64_bits(&buf).unwrap(), f.to_bits(), "{:?}", value),
            None => assert_eq!(to_f64_bits(&buf).unwrap_err().kind, ErrorKind::TypeMismatch),
        }
    }
    assert_eq!(to_f64_bits(&[0x20]).unwrap_err().kind, ErrorKind::InvalidEncoding);
}
