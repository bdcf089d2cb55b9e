use jsonb::builder::{build_array, build_object};
use jsonb::decode::{
    as_bool, as_null, as_number, as_str, from_slice, to_bool, to_f64_bits, to_i64, to_u64,
};
use jsonb::functions::{
    array_length, array_values, get_by_index, get_by_name, is_array, is_object, object_keys,
};
use jsonb::jsonpath::exception::ErrorKind;
use jsonb::number::Number;
use jsonb::text::to_str_with;
use jsonb::value::Value;

/// A reader of JSON text for the tests: it turns a text into a value, the
/// members of an object in the order of their names.
struct Text<'a> {
    bytes: &'a [u8],
    at: usize,
}

impl<'a> Text<'a> {
    fn blanks(&mut self) {
        while self.at < self.bytes.len() && b" \t\r\n".contains(&self.bytes[self.at]) {
            self.at += 1;
        }
    }

    fn expect(&mut self, word: &str) {
        assert!(self.bytes[self.at..].starts_with(word.as_bytes()), "expected {}", word);
        self.at += word.len();
    }

    fn hex4(&mut self) -> u32 {
        let digits = std::str::from_utf8(&self.bytes[self.at..self.at + 4]).unwrap();
        self.at += 4;
        u32::from_str_radix(digits, 16).unwrap()
    }

    fn string(&mut self) -> String {
        self.expect("\"");
        let mut out: Vec<u8> = Vec::new();
        loop {
            let b = self.bytes[self.at];
            self.at += 1;
            match b {
                b'"' => break,
                b'\\' => {
                    let e = self.bytes[self.at];
                    self.at += 1;
                    let c = match e {
                        b'n' => '\n',
                        b't' => '\t',
                        b'r' => '\r',
                        b'b' => '\u{8}',
                        b'f' => '\u{c}',
                        b'/' => '/',
                        b'\\' => '\\',
                        b'"' => '"',
                        b'u' => {
                            let mut code = self.hex4();
                            if (0xD800..0xDC00).contains(&code) {
                                self.expect("\\u");
                                let low = self.hex4();
                                code = 0x10000 + ((code - 0xD800) << 10) + (low - 0xDC00);
                            }
                            char::from_u32(code).unwrap()
                        }
                        _ => panic!("unknown escape"),
                    };
                    let mut buf = [0u8; 4];
                    out.extend_from_slice(c.encode_utf8(&mut buf).as_bytes());
                }
                _ => out.push(b),
            }
        }
        String::from_utf8(out).unwrap()
    }

    fn number(&mut self) -> Number {
        let start = self.at;
        while self.at < self.bytes.len() && b"+-.eE0123456789".contains(&self.bytes[self.at]) {
            self.at += 1;
        }
        let text = std::str::from_utf8(&self.bytes[start..self.at]).unwrap();
        if let Ok(v) = text.parse::<u64>() {
            Number::UInt64(v)
        } else if let Ok(v) = text.parse::<i64>() {
            Number::Int64(v)
        } else {
            Number::Float64(text.parse::<f64>().unwrap().to_bits())
        }
    }

    fn value(&mut self) -> Value {
        self.blanks();
        let value = match self.bytes[self.at] {
            b'n' => {
                self.expect("null");
                Value::Null
            }
            b't' => {
                self.expect("true");
                Value::Bool(true)
            }
            b'f' => {
                self.expect("false");
                Value::Bool(false)
            }
            b'"' => Value::String(self.string()),
            b'[' => {
                self.expect("[");
                let mut items = Vec::new();
                self.blanks();
                if self.bytes[self.at] == b']' {
                    self.at += 1;
                } else {
                    loop {
                        items.push(self.value());
                        self.blanks();
                        if self.bytes[self.at] == b',' {
                            self.at += 1;
                        } else {
                            self.expect("]");
                            break;
                        }
                    }
                }
                Value::Array(items)
            }
            b'{' => {
                self.expect("{");
                let mut members: Vec<(String, Value)> = Vec::new();
                self.blanks();
                if self.bytes[self.at] == b'}' {
                    self.at += 1;
                } else {
                    loop {
                        self.blanks();
                        let key = self.string();
                        self.blanks();
                        self.expect(":");
                        let value = self.value();
                        members.retain(|(k, _)| *k != key);
                        members.push((key, value));
                        self.blanks();
                        if self.bytes[self.at] == b',' {
                            self.at += 1;
                        } else {
                            self.expect("}");
                            break;
                        }
                    }
                }
                members.sort_by(|a, b| a.0.cmp(&b.0));
                Value::Object(members)
            }
            _ => Value::Number(self.number()),
        };
        self.blanks();
        value
    }
}

fn parse_value(text: &[u8]) -> Value {
    let mut reader = Text { bytes: text, at: 0 };
    let value = reader.value();
    assert_eq!(reader.at, text.len());
    value
}

fn encode(value: &Value) -> Vec<u8> {
    let mut buf = Vec::new();
    value.write_to_vec(&mut buf).unwrap();
    buf
}

fn encoded(text: &str) -> Vec<u8> {
    encode(&parse_value(text.as_bytes()))
}

/// The table of the texts of the floating-point numbers in a value.
fn float_texts(value: &Value, table: &mut Vec<(u64, String)>) {
    match value {
        Value::Number(Number::Float64(bits)) => {
            table.push((*bits, format!("{:?}", f64::from_bits(*bits))));
        }
        Value::Array(items) => {
            for item in items {
                float_texts(item, table);
            }
        }
        Value::Object(members) => {
            for (_, item) in members {
                float_texts(item, table);
            }
        }
        _ => {}
    }
}

#[test]
fn test_build_array() {
    let sources = vec![
        r#"true"#,
        r#"123.45"#,
        r#""abc""#,
        r#"[1,2,3]"#,
        r#"{"k":"v"}"#,
    ];
    let mut expect_array = Vec::with_capacity(sources.len());
    let mut offsets = Vec::with_capacity(sources.len());
    let mut buf: Vec<u8> = Vec::new();
    for s in sources {
        let value = parse_value(s.as_bytes());
        expect_array.push(parse_value(s.as_bytes()));
        value.write_to_vec(&mut buf).unwrap();
        offsets.push(buf.len());
    }
    let mut values = Vec::with_capacity(offsets.len());
    let mut last_offset = 0;
    for offset in offsets {
        values.push(&buf[last_offset..offset]);
        last_offset = offset;
    }

    let expect_value = Value::Array(expect_array);
    let mut expect_buf: Vec<u8> = Vec::new();
    expect_value.write_to_vec(&mut expect_buf).unwrap();

    let mut arr_buf = Vec::new();
    build_array(values, &mut arr_buf).unwrap();
    assert_eq!(arr_buf, expect_buf);

    let value = from_slice(&arr_buf).unwrap();
    assert!(matches!(value, Value::Array(_)));
    match value {
        Value::Array(array) => assert_eq!(array.len(), 5),
        _ => unreachable!(),
    }
}

#[test]
fn test_build_object() {
    let sources = vec![
        r#"true"#,
        r#"123.45"#,
        r#""abc""#,
        r#"[1,2,3]"#,
        r#"{"k":"v"}"#,
    ];
    let keys = vec![
        "k1".to_string(),
        "k2".to_string(),
        "k3".to_string(),
        "k4".to_string(),
        "k5".to_string(),
    ];

    let mut buf: Vec<u8> = Vec::new();
    let mut offsets = Vec::with_capacity(sources.len());
    let mut expect_object = Vec::new();
    for (key, s) in keys.iter().zip(sources.iter()) {
        let value = parse_value(s.as_bytes());
        expect_object.push((key.clone(), parse_value(s.as_bytes())));

        value.write_to_vec(&mut buf).unwrap();
        offsets.push(buf.len());
    }

    let mut values = Vec::with_capacity(offsets.len());
    let mut last_offset = 0;
    for (key, offset) in keys.iter().zip(offsets.iter()) {
        values.push((key.as_str(), &buf[last_offset..*offset]));
        last_offset = *offset;
    }

    let expect_value = Value::Object(expect_object);
    let mut expect_buf: Vec<u8> = Vec::new();
    expect_value.write_to_vec(&mut expect_buf).unwrap();

    let mut obj_buf = Vec::new();
    build_object(values, &mut obj_buf).unwrap();
    assert_eq!(obj_buf, expect_buf);

    let value = from_slice(&obj_buf).unwrap();
    assert!(matches!(value, Value::Object(_)));
    match value {
        Value::Object(object) => assert_eq!(object.len(), 5),
        _ => unreachable!(),
    }
}

#[test]
fn test_array_length() {
    let sources = vec![
        (r#"true"#, None),
        (r#"1234"#, None),
        (r#"[]"#, Some(0)),
        (r#"[1,2,3]"#, Some(3)),
        (r#"["a","b","c","d","e","f"]"#, Some(6)),
        (r#"{"k":"v"}"#, None),
    ];

    let mut buf: Vec<u8> = Vec::new();
    for (s, expect) in sources {
        let value = parse_value(s.as_bytes());
        value.write_to_vec(&mut buf).unwrap();
        let res = array_length(&buf);
        assert_eq!(res, expect);
        buf.clear();
    }
}

#[test]
fn test_get_by_index() {
    let sources = vec![
        (r#"1234"#, 0, None),
        (r#"[]"#, 0, None),
        (r#"[1,2,3]"#, 1, Some(Value::Number(Number::UInt64(2)))),
        (r#"["a","b","c"]"#, 0, Some(Value::String("a".to_string()))),
    ];

    let mut buf: Vec<u8> = Vec::new();
    for (s, idx, expect) in sources {
        let value = parse_value(s.as_bytes());
        value.write_to_vec(&mut buf).unwrap();
        let res = get_by_index(&buf, idx);
        match expect {
            Some(expect) => assert_eq!(from_slice(&res.unwrap()).unwrap(), expect),
            None => assert_eq!(res, None),
        }
        buf.clear();
    }
}

#[test]
fn test_get_by_name() {
    let sources = vec![
        (r#"true"#, "a".to_string(), None),
        (r#"[1,2,3]"#, "a".to_string(), None),
        (r#"{"a":"v1","b":[1,2,3]}"#, "k".to_string(), None),
        (
            r#"{"Aa":"v1", "aA":"v2", "aa":"v3"}"#,
            "aa".to_string(),
            Some(Value::String("v3".to_string())),
        ),
        (
            r#"{"Aa":"v1", "aA":"v2", "aa":"v3"}"#,
            "AA".to_string(),
            None,
        ),
    ];

    let mut buf: Vec<u8> = Vec::new();
    for (s, name, expect) in sources {
        let value = parse_value(s.as_bytes());
        value.write_to_vec(&mut buf).unwrap();
        let res = get_by_name(&buf, &name, false);
        match expect {
            Some(expect) => assert_eq!(from_slice(&res.unwrap()).unwrap(), expect),
            None => assert_eq!(res, None),
        }
        buf.clear();
    }
}

#[test]
fn test_get_by_name_ignore_case() {
    let sources = vec![
        (r#"true"#, "a".to_string(), None),
        (r#"[1,2,3]"#, "a".to_string(), None),
        (r#"{"a":"v1","b":[1,2,3]}"#, "k".to_string(), None),
        (
            r#"{"Aa":"v1", "aA":"v2", "aa":"v3"}"#,
            "aa".to_string(),
            Some(Value::String("v3".to_string())),
        ),
        (
            r#"{"Aa":"v1", "aA":"v2", "aa":"v3"}"#,
            "AA".to_string(),
            Some(Value::String("v1".to_string())),
        ),
    ];

    let mut buf: Vec<u8> = Vec::new();
    for (s, name, expect) in sources {
        let value = parse_value(s.as_bytes());
        value.write_to_vec(&mut buf).unwrap();
        let res = get_by_name(&buf, &name, true);
        match expect {
            Some(expect) => assert_eq!(from_slice(&res.unwrap()).unwrap(), expect),
            None => assert_eq!(res, None),
        }
        buf.clear();
    }
}

#[test]
fn test_object_keys() {
    let sources = vec![
        (r#"[1,2,3]"#, None),
        (
            r#"{"a":"v1","b":[1,2,3]}"#,
            Some(Value::Array(vec![
                Value::String("a".to_string()),
                Value::String("b".to_string()),
            ])),
        ),
        (
            r#"{"k1":"v1","k2":[1,2,3]}"#,
            Some(Value::Array(vec![
                Value::String("k1".to_string()),
                Value::String("k2".to_string()),
            ])),
        ),
    ];

    let mut buf: Vec<u8> = Vec::new();
    for (s, expect) in sources {
        let value = parse_value(s.as_bytes());
        value.write_to_vec(&mut buf).unwrap();
        let res = object_keys(&buf);
        match expect {
            Some(expect) => assert_eq!(from_slice(&res.unwrap()).unwrap(), expect),
            None => assert_eq!(res, None),
        }
        buf.clear();
    }
}

#[test]
fn test_array_values() {
    let sources = vec![
        (r#"{"a":"v1","b":"v2"}"#, None),
        (r#"[]"#, Some(vec![])),
        (
            r#"[1,"a",[1,2]]"#,
            Some(vec![
                Value::Number(Number::Int64(1)),
                Value::String("a".to_string()),
                Value::Array(vec![
                    Value::Number(Number::Int64(1)),
                    Value::Number(Number::Int64(2)),
                ]),
            ]),
        ),
    ];

    let mut buf: Vec<u8> = Vec::new();
    for (s, expect) in sources {
        let value = parse_value(s.as_bytes());
        value.write_to_vec(&mut buf).unwrap();
        let res = array_values(&buf);
        match expect {
            Some(expect) => {
                let arr = res.unwrap();
                assert_eq!(arr.len(), expect.len());
                for (v, e) in arr.iter().zip(expect.iter()) {
                    assert_eq!(&from_slice(v).unwrap(), e);
                }
            }
            None => assert_eq!(res, None),
        }
        buf.clear();
    }
}

#[test]
fn test_as_type() {
    let sources = vec![
        (r#"null"#, Some(()), None, None, None, false, false),
        (r#"true"#, None, Some(true), None, None, false, false),
        (r#"false"#, None, Some(false), None, None, false, false),
        (
            r#"-1234"#,
            None,
            None,
            Some(Number::Int64(-1234)),
            None,
            false,
            false,
        ),
        (
            r#"12.34"#,
            None,
            None,
            Some(Number::Float64(12.34f64.to_bits())),
            None,
            false,
            false,
        ),
        (
            r#""abcd""#,
            None,
            None,
            None,
            Some("abcd"),
            false,
            false,
        ),
        (r#"[1,2,3]"#, None, None, None, None, true, false),
        (r#"{"k":"v"}"#, None, None, None, None, false, true),
    ];

    let mut buf: Vec<u8> = Vec::new();
    for (s, expect_null, expect_bool, expect_number, expect_str, expect_array, expect_object) in
        sources
    {
        let value = parse_value(s.as_bytes());
        value.write_to_vec(&mut buf).unwrap();
        let res = as_null(&buf);
        match expect_null {
            Some(_) => assert!(res.is_some()),
            None => assert_eq!(res, None),
        }
        let res = as_bool(&buf);
        match expect_bool {
            Some(expect) => assert_eq!(res.unwrap(), expect),
            None => assert_eq!(res, None),
        }
        let res = as_number(&buf);
        match expect_number {
            Some(expect) => assert_eq!(res.unwrap(), expect),
            None => assert_eq!(res, None),
        }
        let res = as_str(&buf);
        match expect_str {
            Some(expect) => assert_eq!(res.unwrap(), expect),
            None => assert_eq!(res, None),
        }
        let res = is_array(&buf);
        assert_eq!(res, expect_array);
        let res = is_object(&buf);
        assert_eq!(res, expect_object);

        buf.clear();
    }
}

#[test]
fn test_to_type() {
    let sources = vec![
        (r#"null"#, None, None, None, None, None),
        (
            r#"true"#,
            Some(true),
            Some(1_i64),
            Some(1_u64),
            Some(1_f64),
            Some("true".to_string()),
        ),
        (
            r#"false"#,
            Some(false),
            Some(0_i64),
            Some(0_u64),
            Some(0_f64),
            Some("false".to_string()),
        ),
        (
            r#"1"#,
            None,
            Some(1_i64),
            Some(1_u64),
            Some(1_f64),
            Some("1".to_string()),
        ),
        (
            r#"-2"#,
            None,
            Some(-2_i64),
            None,
            Some(-2_f64),
            Some("-2".to_string()),
        ),
        (
            r#"1.2"#,
            None,
            None,
            None,
            Some(1.2_f64),
            Some("1.2".to_string()),
        ),
        (
            r#""true""#,
            Some(true),
            None,
            None,
            None,
            Some("true".to_string()),
        ),
        (
            r#""false""#,
            Some(false),
            None,
            None,
            None,
            Some("false".to_string()),
        ),
        (
            r#""abcd""#,
            None,
            None,
            None,
            None,
            Some("abcd".to_string()),
        ),
    ];

    let mut buf: Vec<u8> = Vec::new();
    for (s, expect_bool, expect_i64, expect_u64, expect_f64, expect_str) in sources {
        let value = parse_value(s.as_bytes());
        value.write_to_vec(&mut buf).unwrap();
        let mut table = Vec::new();
        float_texts(&value, &mut table);
        let res = to_bool(&buf);
        match expect_bool {
            Some(expect) => assert_eq!(res.unwrap(), expect),
            None => assert!(res.is_err()),
        }
        let res = to_i64(&buf);
        match expect_i64 {
            Some(expect) => assert_eq!(res.unwrap(), expect),
            None => assert!(res.is_err()),
        }
        let res = to_u64(&buf);
        match expect_u64 {
            Some(expect) => assert_eq!(res.unwrap(), expect),
            None => assert!(res.is_err()),
        }
        let res = to_f64_bits(&buf);
        match expect_f64 {
            Some(expect) => assert_eq!(f64::from_bits(res.unwrap()), expect),
            None => assert!(res.is_err()),
        }
        let res = to_str_with(&buf, &table);
        match expect_str {
            Some(ref expect) => assert_eq!(&res.unwrap(), expect),
            None => assert!(res.is_err()),
        }

        buf.clear();
    }
}

#[test]
fn test_binary_form_of_scalars() {
    assert_eq!(encoded("null"), vec![0x20, 0, 0, 1, 0x40, 0, 0, 0]);
    assert_eq!(encoded("false"), vec![0x20, 0, 0, 1, 0x20, 0, 0, 0]);
    assert_eq!(encoded("true"), vec![0x20, 0, 0, 1, 0x30, 0, 0, 0]);
    assert_eq!(encoded("\"ab\""), vec![0x20, 0, 0, 1, 0x00, 0, 0, 2, b'a', b'b']);
    assert_eq!(
        encoded("258"),
        vec![0x20, 0, 0, 1, 0x10, 0, 0, 9, 0, 0, 0, 0, 0, 0, 0, 1, 2]
    );
    assert_eq!(
        encoded("-2"),
        vec![0x20, 0, 0, 1, 0x10, 0, 0, 9, 0, 0xff, 0xff, 0xff, 0xff, 0xff, 0xff, 0xff, 0xfe]
    );
    assert_eq!(
        encoded("18446744073709551615"),
        vec![0x20, 0, 0, 1, 0x10, 0, 0, 9, 1, 0xff, 0xff, 0xff, 0xff, 0xff, 0xff, 0xff, 0xff]
    );
    assert_eq!(
        encoded("9223372036854775807"),
        vec![0x20, 0, 0, 1, 0x10, 0, 0, 9, 0, 0x7f, 0xff, 0xff, 0xff, 0xff, 0xff, 0xff, 0xff]
    );
    assert_eq!(
        encoded("9223372036854775808"),
        vec![0x20, 0, 0, 1, 0x10, 0, 0, 9, 1, 0x80, 0, 0, 0, 0, 0, 0, 0]
    );
    assert_eq!(
        encoded("1.5"),
        vec![0x20, 0, 0, 1, 0x10, 0, 0, 9, 2, 0x3f, 0xf8, 0, 0, 0, 0, 0, 0]
    );
}

#[test]
fn test_binary_form_of_containers() {
    assert_eq!(encoded("[]"), vec![0x80, 0, 0, 0]);
    assert_eq!(encoded("{}"), vec![0x40, 0, 0, 0]);
    assert_eq!(
        encoded(r#"[null,"a",[true]]"#),
        vec![
            0x80, 0, 0, 3, // array of three
            0x40, 0, 0, 0, // null
            0x00, 0, 0, 1, // string of one byte
            0x50, 0, 0, 8, // container of eight bytes
            b'a', // the string
            0x80, 0, 0, 1, 0x30, 0, 0, 0, // the nested array
        ]
    );
    assert_eq!(
        encoded(r#"{"k":"v","n":{}}"#),
        vec![
            0x40, 0, 0, 2, // object of two
            0x00, 0, 0, 1, 0x00, 0, 0, 1, // the keys
            0x00, 0, 0, 1, 0x50, 0, 0, 4, // the values
            b'k', b'n', // the keys
            b'v', 0x40, 0, 0, 0, // the values
        ]
    );
}

#[test]
fn test_round_trip() {
    let sources = vec![
        r#"null"#,
        r#"true"#,
        r#"false"#,
        r#"0"#,
        r#"-1"#,
        r#"-9223372036854775808"#,
        r#"9223372036854775807"#,
        r#"9223372036854775808"#,
        r#"18446744073709551615"#,
        r#"123.45"#,
        r#"-1e300"#,
        r#""""#,
        r#""ab\n\"💎测试""#,
        r#"[]"#,
        r#"{}"#,
        r#"[[],[[]],{}]"#,
        r#"[1,"a",[1,2],{"k":[{"x":null}]}]"#,
        r#"{"name":"Fred","phones":[{"type":"home","number":3720453},{"type":"work","number":5062051}],"car_no":123,"测试\"💎":"ab"}"#,
    ];
    for s in sources {
        let value = parse_value(s.as_bytes());
        let buf = encode(&value);
        let back = from_slice(&buf).unwrap();
        assert_eq!(back, value, "{}", s);
        assert_eq!(encode(&back), buf, "{}", s);
    }
}

#[test]
fn test_round_trip_keeps_order_and_repeated_names() {
    let value = Value::Object(vec![
        ("k".to_string(), Value::Number(Number::Int64(1))),
        ("a".to_string(), Value::Null),
        ("k".to_string(), Value::Number(Number::Int64(2))),
    ]);
    let buf = encode(&value);
    assert_eq!(from_slice(&buf).unwrap(), value);
}

#[test]
fn test_name_lookup_last_wins() {
    let value = Value::Object(vec![
        ("k".to_string(), Value::Number(Number::Int64(1))),
        ("k".to_string(), Value::Number(Number::Int64(2))),
    ]);
    let buf = encode(&value);
    for ignore_case in [false, true] {
        let found = get_by_name(&buf, "k", ignore_case).unwrap();
        assert_eq!(from_slice(&found).unwrap(), Value::Number(Number::Int64(2)));
        assert_eq!(to_i64(&found).unwrap(), 2);
    }
}

#[test]
fn test_name_lookup_ignoring_case_finds_first() {
    let value = Value::Object(vec![
        ("x".to_string(), Value::Null),
        ("aB".to_string(), Value::Number(Number::Int64(1))),
        ("Ab".to_string(), Value::Number(Number::Int64(2))),
        ("AB".to_string(), Value::Number(Number::Int64(3))),
    ]);
    let buf = encode(&value);
    assert_eq!(to_i64(&get_by_name(&buf, "ab", true).unwrap()).unwrap(), 1);
    assert_eq!(get_by_name(&buf, "ab", false), None);
    // A member of exactly that name comes before any that differs in case.
    assert_eq!(to_i64(&get_by_name(&buf, "AB", true).unwrap()).unwrap(), 3);
    assert_eq!(to_i64(&get_by_name(&buf, "Ab", true).unwrap()).unwrap(), 2);
    // Only ASCII letters are folded.
    let value = Value::Object(vec![("É".to_string(), Value::Null)]);
    let buf = encode(&value);
    assert_eq!(get_by_name(&buf, "é", true), None);
    assert!(get_by_name(&buf, "É", true).is_some());
}

#[test]
fn test_get_by_index_of_every_kind() {
    let buf = encoded(r#"[null,true,false,-7,"s",[1],{"k":2}]"#);
    let expect = vec![
        r#"null"#, r#"true"#, r#"false"#, r#"-7"#, r#""s""#, r#"[1]"#, r#"{"k":2}"#,
    ];
    for (i, e) in expect.iter().enumerate() {
        assert_eq!(get_by_index(&buf, i as i32).unwrap(), encoded(e));
    }
    assert_eq!(get_by_index(&buf, 7), None);
    assert_eq!(get_by_index(&buf, -1), None);
    assert_eq!(get_by_index(&buf, i32::MAX), None);
    let values = array_values(&buf).unwrap();
    assert_eq!(values.len(), 7);
    for (v, e) in values.iter().zip(expect.iter()) {
        assert_eq!(v, &encoded(e));
    }
}

#[test]
fn test_object_keys_is_an_array_of_strings() {
    let buf = encoded(r#"{"a":1,"bc":[2],"d":{"e":3}}"#);
    assert_eq!(object_keys(&buf).unwrap(), encoded(r#"["a","bc","d"]"#));
    assert_eq!(object_keys(&encoded("{}")).unwrap(), encoded("[]"));
    assert_eq!(object_keys(&encoded("null")), None);
}

#[test]
fn test_readers_refuse_broken_buffers() {
    let good = encoded(r#"{"a":[1,"x"],"b":null}"#);
    assert!(from_slice(&good).is_ok());
    // Cut short anywhere, the buffer holds no value.
    for cut in 0..good.len() {
        let error = from_slice(&good[..cut]).unwrap_err();
        assert_eq!(error.kind, ErrorKind::InvalidEncoding);
    }
    // Nor with a byte too many.
    let mut long = good.clone();
    long.push(0);
    assert!(from_slice(&long).is_err());
    // No header at all.
    assert_eq!(array_length(&[]), None);
    assert_eq!(array_length(&[0x80, 0, 0]), None);
    assert!(!is_array(&[0x80]));
    assert!(!is_object(&[]));
    assert_eq!(get_by_index(&[], 0), None);
    assert_eq!(get_by_name(&[], "a", true), None);
    assert_eq!(object_keys(&[0x40, 0, 0]), None);
    assert_eq!(array_values(&[]), None);
    // An array that promises an item it does not hold.
    assert_eq!(array_length(&[0x80, 0, 0, 1]), Some(1));
    assert_eq!(get_by_index(&[0x80, 0, 0, 1], 0), None);
    assert_eq!(array_values(&[0x80, 0, 0, 1]), None);
    // A payload that reaches beyond the buffer.
    assert_eq!(get_by_index(&[0x80, 0, 0, 1, 0x00, 0, 0, 2, b'a'], 0), None);
    // An unknown type code.
    assert_eq!(get_by_index(&[0x80, 0, 0, 1, 0x60, 0, 0, 0], 0), None);
    assert!(from_slice(&[0x80, 0, 0, 1, 0x60, 0, 0, 0]).is_err());
    // An unknown header.
    assert!(from_slice(&[0x10, 0, 0, 0]).is_err());
    assert!(from_slice(b"[1,2,3]").is_err());
    // A scalar header inside a scalar header.
    assert!(from_slice(&[0x20, 0, 0, 1, 0x50, 0, 0, 8, 0x20, 0, 0, 1, 0x40, 0, 0, 0]).is_err());
    // Text that is not UTF-8.
    assert!(from_slice(&[0x20, 0, 0, 1, 0x00, 0, 0, 1, 0xff]).is_err());
    assert_eq!(as_str(&[0x20, 0, 0, 1, 0x00, 0, 0, 1, 0xff]), None);
    // A null with a payload, a number of the wrong length or tag.
    assert!(from_slice(&[0x20, 0, 0, 1, 0x40, 0, 0, 1, 0]).is_err());
    assert_eq!(as_null(&[0x20, 0, 0, 1, 0x40, 0, 0, 1, 0]), None);
    assert_eq!(as_number(&[0x20, 0, 0, 1, 0x10, 0, 0, 1, 0]), None);
    assert_eq!(as_number(&[0x20, 0, 0, 1, 0x10, 0, 0, 9, 3, 0, 0, 0, 0, 0, 0, 0, 0]), None);
}

#[test]
fn test_conversion_errors() {
    assert_eq!(to_bool(&encoded("null")).unwrap_err().kind, ErrorKind::TypeMismatch);
    assert_eq!(to_bool(&encoded("\"TRUE\"")).unwrap_err().kind, ErrorKind::TypeMismatch);
    assert_eq!(to_bool(&encoded("1")).unwrap_err().kind, ErrorKind::TypeMismatch);
    assert_eq!(to_bool(&encoded("[true]")).unwrap_err().kind, ErrorKind::TypeMismatch);
    assert_eq!(to_bool(&[]).unwrap_err().kind, ErrorKind::InvalidEncoding);
    assert_eq!(to_bool(b"true").unwrap_err().kind, ErrorKind::InvalidEncoding);
    assert_eq!(to_i64(&encoded("9223372036854775807")).unwrap(), i64::MAX);
    assert_eq!(to_i64(&encoded("-9223372036854775808")).unwrap(), i64::MIN);
    assert_eq!(to_i64(&encoded("9223372036854775808")).unwrap_err().kind, ErrorKind::TypeMismatch);
    assert_eq!(to_i64(&encoded("1.0")).unwrap_err().kind, ErrorKind::TypeMismatch);
    assert_eq!(to_i64(&encoded("{}")).unwrap_err().kind, ErrorKind::TypeMismatch);
    assert_eq!(to_i64(&[0x20, 0, 0, 1]).unwrap_err().kind, ErrorKind::InvalidEncoding);
    assert_eq!(to_u64(&encoded("18446744073709551615")).unwrap(), u64::MAX);
    assert_eq!(to_u64(&encoded("-1")).unwrap_err().kind, ErrorKind::TypeMismatch);
    assert_eq!(to_u64(&encoded("\"1\"")).unwrap_err().kind, ErrorKind::TypeMismatch);
    assert_eq!(to_u64(&[0x80]).unwrap_err().kind, ErrorKind::InvalidEncoding);
}

#[test]
fn test_build_lifts_scalars_and_nests_containers() {
    let null = encoded("null");
    let list = encoded("[1]");
    let mut out = vec![0xAA];
    build_array(vec![&null[..], &list[..]], &mut out).unwrap();
    assert_eq!(out[0], 0xAA);
    assert_eq!(&out[1..], &encoded("[null,[1]]")[..]);
    let mut out = Vec::new();
    build_array(vec![], &mut out).unwrap();
    assert_eq!(out, encoded("[]"));
    let mut out = Vec::new();
    build_object(vec![("b", &null[..]), ("a", &list[..]), ("b", &list[..])], &mut out).unwrap();
    assert_eq!(
        from_slice(&out).unwrap(),
        Value::Object(vec![
            ("b".to_string(), Value::Null),
            ("a".to_string(), Value::Array(vec![Value::Number(Number::Int64(1))])),
            ("b".to_string(), Value::Array(vec![Value::Number(Number::Int64(1))])),
        ])
    );
}

#[test]
fn test_build_refuses_what_is_no_buffer() {
    let null = encoded("null");
    let mut out = vec![1, 2, 3];
    let error = build_array(vec![&null[..], &b"null"[..]], &mut out).unwrap_err();
    assert_eq!(error.kind, ErrorKind::InvalidEncoding);
    assert_eq!(out, vec![1, 2, 3]);
    assert!(build_array(vec![&[][..]], &mut out).is_err());
    assert!(build_array(vec![&null[..7]], &mut out).is_err());
    assert!(build_object(vec![("k", &[0x20u8, 0, 0, 2][..])], &mut out).is_err());
    assert_eq!(out, vec![1, 2, 3]);
}

#[test]
fn test_number_equality() {
    assert_eq!(Number::Int64(2), Number::UInt64(2));
    assert_eq!(Number::UInt64(0), Number::Int64(0));
    assert_ne!(Number::Int64(-1), Number::UInt64(u64::MAX));
    assert_ne!(Number::Int64(1), Number::Float64(1f64.to_bits()));
    assert_eq!(Number::Float64(1f64.to_bits()), Number::Float64(1f64.to_bits()));
}
