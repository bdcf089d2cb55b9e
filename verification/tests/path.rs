use jsonb::jsonpath::exception::ErrorKind;
use jsonb::jsonpath::parser::grammar::parse_json_path;
use jsonb::jsonpath::parser::unquote::unquote;
use jsonb::jsonpath::path::{CompareOp, Expr, JsonPath, Literal, Selector};
use jsonb::jsonpath::selector::{get_by_path, parse_integer};
use jsonb::number::Number;
use jsonb::value::Value;

/// A reader of JSON text for the tests: it turns a text into a value, the
/// members of an object in the order of their names.
struct Json<'a> {
    bytes: &'a [u8],
    at: usize,
}

impl<'a> Json<'a> {
    fn blanks(&mut self) {
        while self.at < self.bytes.len() && b" \t\r\n".contains(&self.bytes[self.at]) {
            self.at += 1;
        }
    }

    fn expect(&mut self, word: &str) {
        assert!(self.bytes[self.at..].starts_with(word.as_bytes()), "expected {}", word);
        self.at += word.len();
    }

    fn hex4(&mut self) -> u32 {
        let digits = std::str::from_utf8(&self.bytes[self.at..self.at + 4]).unwrap();
        self.at += 4;
        u32::from_str_radix(digits, 16).unwrap()
    }

    fn string(&mut self) -> String {
        self.expect("\"");
        let mut out: Vec<u8> = Vec::new();
        loop {
            let b = self.bytes[self.at];
            self.at += 1;
            match b {
                b'"' => break,
                b'\\' => {
                    let e = self.bytes[self.at];
                    self.at += 1;
                    let c = match e {
                        b'n' => '\n',
                        b't' => '\t',
                        b'r' => '\r',
                        b'b' => '\u{8}',
                        b'f' => '\u{c}',
                        b'/' => '/',
                        b'\\' => '\\',
                        b'"' => '"',
                        b'u' => {
                            let mut code = self.hex4();
                            if (0xD800..0xDC00).contains(&code) {
                                self.expect("\\u");
                                let low = self.hex4();
                                code = 0x10000 + ((code - 0xD800) << 10) + (low - 0xDC00);
                            }
                            char::from_u32(code).unwrap()
                        }
                        _ => panic!("unknown escape"),
                    };
                    let mut buf = [0u8; 4];
                    out.extend_from_slice(c.encode_utf8(&mut buf).as_bytes());
                }
                _ => out.push(b),
            }
        }
        String::from_utf8(out).unwrap()
    }

    fn number(&mut self) -> Number {
        let start = self.at;
        while self.at < self.bytes.len() && b"+-.eE0123456789".contains(&self.bytes[self.at]) {
            self.at += 1;
        }
        let text = std::str::from_utf8(&self.bytes[start..self.at]).unwrap();
        if let Ok(v) = text.parse::<u64>() {
            Number::UInt64(v)
        } else if let Ok(v) = text.parse::<i64>() {
            Number::Int64(v)
        } else {
            Number::Float64(text.parse::<f64>().unwrap().to_bits())
        }
    }

    fn value(&mut self) -> Value {
        self.blanks();
        let value = match self.bytes[self.at] {
            b'n' => {
                self.expect("null");
                Value::Null
            }
            b't' => {
                self.expect("true");
                Value::Bool(true)
            }
            b'f' => {
                self.expect("false");
                Value::Bool(false)
            }
            b'"' => Value::String(self.string()),
            b'[' => {
                self.expect("[");
                let mut items = Vec::new();
                self.blanks();
                if self.bytes[self.at] == b']' {
                    self.at += 1;
                } else {
                    loop {
                        items.push(self.value());
                        self.blanks();
                        if self.bytes[self.at] == b',' {
                            self.at += 1;
                        } else {
                            self.expect("]");
                            break;
                        }
                    }
                }
                Value::Array(items)
            }
            b'{' => {
                self.expect("{");
                let mut members: Vec<(String, Value)> = Vec::new();
                self.blanks();
                if self.bytes[self.at] == b'}' {
                    self.at += 1;
                } else {
                    loop {
                        self.blanks();
                        let key = self.string();
                        self.blanks();
                        self.expect(":");
                        let value = self.value();
                        members.retain(|(k, _)| *k != key);
                        members.push((key, value));
                        self.blanks();
                        if self.bytes[self.at] == b',' {
                            self.at += 1;
                        } else {
                            self.expect("}");
                            break;
                        }
                    }
                }
                members.sort_by(|a, b| a.0.cmp(&b.0));
                Value::Object(members)
            }
            _ => Value::Number(self.number()),
        };
        self.blanks();
        value
    }
}

fn parse_value(text: &[u8]) -> Value {
    let mut reader = Json { bytes: text, at: 0 };
    let value = reader.value();
    assert_eq!(reader.at, text.len());
    value
}

fn encode(value: &Value) -> Vec<u8> {
    let mut buf = Vec::new();
    value.write_to_vec(&mut buf).unwrap();
    buf
}

fn encoded(text: &str) -> Vec<u8> {
    encode(&parse_value(text.as_bytes()))
}

fn select(document: &str, path: &str) -> Vec<Vec<u8>> {
    let json_path = parse_json_path(path).unwrap();
    get_by_path(&encoded(document), &json_path)
}

fn expect_all(texts: &[&str]) -> Vec<Vec<u8>> {
    texts.iter().map(|t| encoded(t)).collect()
}

#[test]
fn test_get_by_path() {
    let source = r#"{"name":"Fred","phones":[{"type":"home","number":3720453},{"type":"work","number":5062051}],"car_no":123,"测试\"\uD83D\uDC8E":"ab"}"#;

    let paths = vec![
        (r#"$.name"#, vec![r#""Fred""#]),
        (
            r#"$.phones"#,
            vec![r#"[{"type":"home","number":3720453},{"type":"work","number":5062051}]"#],
        ),
        (r#"$.phones.*"#, vec![]),
        (
            r#"$.phones[*]"#,
            vec![
                r#"{"type":"home","number":3720453}"#,
                r#"{"type":"work","number":5062051}"#,
            ],
        ),
        (r#"$.phones[0].*"#, vec![r#"3720453"#, r#""home""#]),
        (r#"$.phones[0].type"#, vec![r#""home""#]),
        (r#"$.phones[*].type[*]"#, vec![r#""home""#, r#""work""#]),
        (
            r#"$.phones[0 to last].number"#,
            vec![r#"3720453"#, r#"5062051"#],
        ),
        (
            r#"$.phones[0 to last]?(4 == 4)"#,
            vec![
                r#"{"type":"home","number":3720453}"#,
                r#"{"type":"work","number":5062051}"#,
            ],
        ),
        (
            r#"$.phones[0 to last]?(@.type == "home")"#,
            vec![r#"{"type":"home","number":3720453}"#],
        ),
        (
            r#"$.phones[0 to last]?(@.number == 3720453)"#,
            vec![r#"{"type":"home","number":3720453}"#],
        ),
        (
            r#"$.phones[0 to last]?(@.number == 3720453 OR @.type == "work")"#,
            vec![
                r#"{"type":"home","number":3720453}"#,
                r#"{"type":"work","number":5062051}"#,
            ],
        ),
        (
            r#"$.phones[0 to last]?(@.number == 3720453 AND @.type == "work")"#,
            vec![],
        ),
        (r#"$.car_no"#, vec![r#"123"#]),
        (r#"$."测试\"\uD83D\uDC8E""#, vec![r#""ab""#]),
    ];

    let mut buf: Vec<u8> = Vec::new();
    let value = parse_value(source.as_bytes());
    value.write_to_vec(&mut buf).unwrap();
    for (path, expects) in paths {
        let json_path = parse_json_path(path).unwrap();
        let res = get_by_path(&buf, &json_path);
        assert_eq!(res.len(), expects.len());
        for (val, expect) in res.into_iter().zip(expects.iter()) {
            let mut val_buf: Vec<u8> = Vec::new();
            let val_expect = parse_value(expect.as_bytes());
            val_expect.write_to_vec(&mut val_buf).unwrap();
            assert_eq!(val, val_buf);
        }
    }
}

#[test]
fn test_paths_that_are_no_tokens() {
    // `&&` is no token, `||` is no part of a filter, and a name beyond
    // ASCII needs quotation marks.
    for path in [
        r#"$.phones[0 to last]?(@.number == 3720453 && @.type == "work")"#,
        r#"$.phones[0 to last]?(@.number == 3720453 || @.type == "work")"#,
        r#"$.测试\"\uD83D\uDC8E"#,
    ] {
        let error = parse_json_path(path).unwrap_err();
        assert_eq!(error.kind, ErrorKind::SyntaxException, "{}", path);
        assert!(error.span.is_some());
    }
}

#[test]
fn test_filter_on_phones() {
    let document = r#"{"phones":[{"type":"home","number":3720453},{"type":"work","number":5062051}]}"#;
    assert_eq!(
        select(document, r#"$.phones[0 to last]?(@.type == "home")"#),
        expect_all(&[r#"{"type":"home","number":3720453}"#])
    );
    assert_eq!(
        select(document, r#"$.phones[0 to last]?(@.number == 3720453 AND @.type == "work")"#),
        expect_all(&[])
    );
    assert_eq!(
        select(document, r#"$.phones[*]?(NOT @.type == "home").number"#),
        expect_all(&["5062051"])
    );
    assert_eq!(
        select(document, r#"$.phones[*]?(@.number > 4000000 or @.type <> "work").type"#),
        expect_all(&[r#""home""#, r#""work""#])
    );
    assert_eq!(
        select(document, r#"$.phones[*]?(@.number >= 3720453 and (@.number < 5000000))"#),
        expect_all(&[r#"{"type":"home","number":3720453}"#])
    );
    assert_eq!(select(document, r#"$.phones[*]?(@.missing)"#), expect_all(&[]));
    assert_eq!(select(document, r#"$.phones[*]?(@.type)"#).len(), 2);
    assert_eq!(select(document, r#"$?(@.phones[*].number == 5062051)"#).len(), 1);
    assert_eq!(select(document, r#"$?(@.phones[*].number == 1)"#).len(), 0);
}

#[test]
fn test_index_selectors() {
    let document = r#"[10,11,12,13,14]"#;
    assert_eq!(select(document, "$[0]"), expect_all(&["10"]));
    assert_eq!(select(document, "$[4]"), expect_all(&["14"]));
    assert_eq!(select(document, "$[5]"), expect_all(&[]));
    assert_eq!(select(document, "$[-1]"), expect_all(&["14"]));
    assert_eq!(select(document, "$[-5]"), expect_all(&["10"]));
    assert_eq!(select(document, "$[-6]"), expect_all(&[]));
    assert_eq!(select(document, "$[1 to 3]"), expect_all(&["11", "12", "13"]));
    assert_eq!(select(document, "$[3 to 1]"), expect_all(&[]));
    assert_eq!(select(document, "$[3 to last]"), expect_all(&["13", "14"]));
    assert_eq!(select(document, "$[3 to 100]"), expect_all(&["13", "14"]));
    assert_eq!(select(document, "$[-2 to last]"), expect_all(&["13", "14"]));
    assert_eq!(select(document, "$[-100 to 1]"), expect_all(&["10", "11"]));
    assert_eq!(select(document, "$[-3 to -2]"), expect_all(&["12", "13"]));
    assert_eq!(select(document, "$[7 to last]"), expect_all(&[]));
    assert_eq!(select(document, "$[*]").len(), 5);
    assert_eq!(select(document, "$"), expect_all(&[document]));
    assert_eq!(select(document, "$.a"), expect_all(&[]));
    assert_eq!(select(document, "$.*"), expect_all(&[]));
    assert_eq!(select("[]", "$[0 to last]"), expect_all(&[]));
    assert_eq!(select("[]", "$[*]"), expect_all(&[]));
    // An index of a value that is no array picks nothing; the wildcard
    // picks the value itself.
    assert_eq!(select(r#"{"a":1}"#, "$[0]"), expect_all(&[]));
    assert_eq!(select(r#"{"a":1}"#, "$[0 to last]"), expect_all(&[]));
    assert_eq!(select(r#"{"a":1}"#, "$[*]"), expect_all(&[r#"{"a":1}"#]));
    assert_eq!(select("7", "$[*]"), expect_all(&["7"]));
    assert_eq!(select(r#"[[1,2],[3],4]"#, "$[*][*]"), expect_all(&["1", "2", "3", "4"]));
}

#[test]
fn test_member_selectors() {
    let document = r#"{"a":{"b":[1,2]},"c d":"x","e":null}"#;
    assert_eq!(select(document, "$.a.b"), expect_all(&["[1,2]"]));
    assert_eq!(select(document, "$.a.b[1]"), expect_all(&["2"]));
    assert_eq!(select(document, "$.\"c d\""), expect_all(&[r#""x""#]));
    assert_eq!(select(document, "$.'c d'"), expect_all(&[r#""x""#]));
    assert_eq!(select(document, "$.`c d`"), expect_all(&[r#""x""#]));
    assert_eq!(select(document, "$.\"c\\u0020d\""), expect_all(&[r#""x""#]));
    assert_eq!(select(document, "$.*"), expect_all(&[r#"{"b":[1,2]}"#, r#""x""#, "null"]));
    assert_eq!(select(document, "$.*.*"), expect_all(&["[1,2]"]));
    assert_eq!(select(document, "$.A"), expect_all(&[]));
    assert_eq!(select(document, "$.e.f"), expect_all(&[]));
    // Of members of the same name the last is found.
    let twice = Value::Object(vec![
        ("k".to_string(), Value::Number(Number::Int64(1))),
        ("k".to_string(), Value::Number(Number::Int64(2))),
    ]);
    let path = parse_json_path("$.k").unwrap();
    assert_eq!(get_by_path(&encode(&twice), &path), expect_all(&["2"]));
}

#[test]
fn test_filter_comparisons() {
    let document = r#"[1,2.5,"3","x",true,null,[1],{"a":1},-4,"-4"]"#;
    assert_eq!(select(document, "$[*]?(@ == 1)"), expect_all(&["1"]));
    assert_eq!(select(document, "$[*]?(@ == -4)"), expect_all(&["-4", r#""-4""#]));
    // A string that spells an integer compares with a number as that
    // integer; any other string does not compare with a number.
    assert_eq!(select(document, "$[*]?(@ == 3)"), expect_all(&[r#""3""#]));
    assert_eq!(select(document, "$[*]?(@ > 2 AND @ < 100)"), expect_all(&["2.5", r#""3""#]));
    assert_eq!(select(document, "$[*]?(@ == 'x')"), expect_all(&[r#""x""#]));
    assert_eq!(select(document, "$[*]?(@ == true)"), expect_all(&["true"]));
    assert_eq!(select(document, "$[*]?(@ == null)"), expect_all(&["null"]));
    assert_eq!(select(document, "$[*]?(@ != 1)").len(), 9);
    assert_eq!(select(document, "$[*]?(@ <= 1)"), expect_all(&["1", "true", "-4", r#""-4""#]));
    assert_eq!(select(document, "$[*]?(@ >= \"x\")"), expect_all(&[r#""x""#, "null", "[1]", r#"{"a":1}"#]));
    // A filter in a filter.
    assert_eq!(select(document, "$[*]?(@[*]?(@ == 1))"), expect_all(&["1", "[1]"]));
    // `OR` binds less than `AND`, `AND` less than `NOT`.
    assert_eq!(select(document, "$[*]?(@ == 1 OR @ == 2.5 AND @ == 7)").len(), 1);
    assert_eq!(select(document, "$[*]?((@ == 1 OR @ == 2.5) AND @ == 7)").len(), 0);
    assert_eq!(select(document, "$[*]?(NOT @ == 1 AND NOT @ == true)").len(), 8);
    // A floating-point literal stands for no value.
    assert_eq!(select(document, "$[*]?(@ == 2.5)").len(), 0);
    assert_eq!(select(document, "$[*]?(2.5)").len(), 0);
    assert_eq!(select(document, "$[*]?(0)").len(), 10);
}

#[test]
fn test_float_literal_with_its_value() {
    let path = JsonPath {
        selectors: vec![
            Selector::AnyIndex,
            Selector::Filter(Expr::Compare(
                CompareOp::Greater,
                Box::new(Expr::Path(vec![])),
                Box::new(Expr::Literal(Literal::Number(Number::Float64(1.5f64.to_bits())))),
            )),
        ],
    };
    assert_eq!(get_by_path(&encoded("[1,1.5,2,2.5]"), &path), expect_all(&["2", "2.5"]));
}

#[test]
fn test_parse_json_path() {
    assert_eq!(parse_json_path("$").unwrap(), JsonPath { selectors: vec![] });
    assert_eq!(parse_json_path(" $ ").unwrap(), JsonPath { selectors: vec![] });
    assert_eq!(
        parse_json_path(r#"$.a."b c".*[1][-2 to 3][4 to last][*]"#).unwrap(),
        JsonPath {
            selectors: vec![
                Selector::Member("a".to_string()),
                Selector::Member("b c".to_string()),
                Selector::AnyMember,
                Selector::Index(1),
                Selector::Range(-2, 3),
                Selector::RangeToLast(4),
                Selector::AnyIndex,
            ],
        }
    );
    assert_eq!(
        parse_json_path(r#"$?(not @.a == 1 and (true or @[0] < 'x') or 1.5e3 >= null)"#).unwrap(),
        JsonPath {
            selectors: vec![Selector::Filter(Expr::Or(
                Box::new(Expr::And(
                    Box::new(Expr::Not(Box::new(Expr::Compare(
                        CompareOp::Equal,
                        Box::new(Expr::Path(vec![Selector::Member("a".to_string())])),
                        Box::new(Expr::Literal(Literal::Number(Number::UInt64(1)))),
                    )))),
                    Box::new(Expr::Or(
                        Box::new(Expr::Literal(Literal::Bool(true))),
                        Box::new(Expr::Compare(
                            CompareOp::Less,
                            Box::new(Expr::Path(vec![Selector::Index(0)])),
                            Box::new(Expr::Literal(Literal::String("x".to_string()))),
                        )),
                    )),
                )),
                Box::new(Expr::Compare(
                    CompareOp::GreaterOrEqual,
                    Box::new(Expr::Literal(Literal::Float("1.5e3".to_string()))),
                    Box::new(Expr::Literal(Literal::Null)),
                )),
            ))],
        }
    );
    // Each comparison sign.
    for (sign, op) in [
        ("==", CompareOp::Equal),
        ("!=", CompareOp::NotEqual),
        ("<>", CompareOp::NotEqual),
        ("<", CompareOp::Less),
        (">", CompareOp::Greater),
        ("<=", CompareOp::LessOrEqual),
        (">=", CompareOp::GreaterOrEqual),
    ] {
        let path = parse_json_path(&format!("$?(@ {} -7)", sign)).unwrap();
        assert_eq!(
            path.selectors,
            vec![Selector::Filter(Expr::Compare(
                op,
                Box::new(Expr::Path(vec![])),
                Box::new(Expr::Literal(Literal::Number(Number::Int64(-7)))),
            ))]
        );
    }
}

#[test]
fn test_parse_errors() {
    for (path, start) in [
        ("", 0),
        ("a", 0),
        ("@.a", 0),
        ("$$", 1),
        ("$ a", 2),
        ("$.", 1),
        ("$..a", 1),
        ("$.1", 1),
        ("$.and", 1),
        ("$[", 1),
        ("$[]", 1),
        ("$[1", 1),
        ("$[a]", 1),
        ("$[1 to]", 1),
        ("$[1 to 2", 1),
        ("$[1 upto 2]", 1),
        ("$[to 2]", 1),
        ("$[last]", 1),
        ("$[1.5]", 1),
        ("$[9223372036854775808]", 1),
        ("$?", 1),
        ("$?()", 1),
        ("$?(@", 1),
        ("$?(@ ==)", 1),
        ("$?(@ == 1 2)", 1),
        ("$?(@ == 1 == 2)", 1),
        ("$?(@ = 1)", 1),
        ("$?(@ <=> 1)", 1),
        ("$?(@ in 1)", 1),
        ("$?(size @)", 1),
        ("$?(-@)", 1),
        ("$?(@ and)", 1),
        ("$?(or @)", 1),
        ("$?(not)", 1),
        ("$?(not not @)", 1),
        ("$?(18446744073709551616)", 1),
        ("$?(\"\\u12\")", 1),
        ("$.a]", 3),
        ("$.a)", 3),
        ("$.a b", 4),
    ] {
        let error = parse_json_path(path).unwrap_err();
        assert_eq!(error.kind, ErrorKind::SyntaxException, "{}", path);
        assert_eq!(error.message, "unexpected token in the path", "{}", path);
        assert_eq!(error.span.unwrap().start, start, "{}", path);
    }
}

#[test]
fn test_parse_error_spans() {
    // The error points at the token at which the tokens are given up.
    let error = parse_json_path("$.name extra").unwrap_err();
    assert_eq!(error.span.unwrap().start, 7);
    assert_eq!(error.span.unwrap().end, 12);
    let error = parse_json_path("  name").unwrap_err();
    assert_eq!(error.span.unwrap().start, 2);
    assert_eq!(error.span.unwrap().end, 6);
    let error = parse_json_path("$[1 to").unwrap_err();
    assert_eq!(error.span.unwrap().start, 1);
    assert_eq!(error.span.unwrap().end, 2);
    // Where no token starts, it points from there to the end of the text.
    let error = parse_json_path("$.a # b").unwrap_err();
    assert_eq!(error.message, "unable to recognize the rest tokens");
    assert_eq!(error.span.unwrap().start, 4);
    assert_eq!(error.span.unwrap().end, 7);
}

#[test]
fn test_unquote() {
    let cases: Vec<(&str, Option<&str>)> = vec![
        (r#""""#, Some("")),
        (r#""abc""#, Some("abc")),
        (r#"'abc'"#, Some("abc")),
        (r#"`a"b\n`"#, Some("a\"b\\n")),
        (r#""a\nb\tc\rd\be\ff""#, Some("a\nb\tc\rd\u{8}e\u{c}f")),
        (r#""q\"b\\s\/x\'y\z""#, Some("q\"b\\s/x'yz")),
        (r#""a""b""#, Some("a\"b")),
        (r#"'it''s'"#, Some("it's")),
        (r#""it's""#, Some("it's")),
        (r#""\u0041\u00e9\u6d4B""#, Some("Aé测")),
        (r#""\uD83D\uDC8E""#, Some("💎")),
        (r#""测试💎""#, Some("测试💎")),
        (r#""\uD83D""#, None),
        (r#""\uD83Dx""#, None),
        (r#""\uD83D\u0041""#, None),
        (r#""\uDC8E""#, None),
        (r#""\u12""#, None),
        (r#""\u12G4""#, None),
        (r#""a"b""#, None),
        (r#""abc"#, None),
        (r#""abc'"#, None),
        (r#"abc"#, None),
        (r#"""#, None),
        (r#""\""#, None),
    ];
    for (text, expect) in cases {
        assert_eq!(unquote(text), expect.map(|s| s.to_string()), "{}", text);
    }
}

#[test]
fn test_parse_integer() {
    assert_eq!(parse_integer(b"0"), Some(Number::UInt64(0)));
    assert_eq!(parse_integer(b"007"), Some(Number::UInt64(7)));
    assert_eq!(parse_integer(b"-0"), Some(Number::Int64(0)));
    assert_eq!(parse_integer(b"-12"), Some(Number::Int64(-12)));
    assert_eq!(parse_integer(b"18446744073709551615"), Some(Number::UInt64(u64::MAX)));
    assert_eq!(parse_integer(b"18446744073709551616"), None);
    assert_eq!(parse_integer(b"99999999999999999999999"), None);
    assert_eq!(parse_integer(b"-9223372036854775808"), Some(Number::Int64(i64::MIN)));
    assert_eq!(parse_integer(b"-9223372036854775809"), None);
    assert_eq!(parse_integer(b""), None);
    assert_eq!(parse_integer(b"-"), None);
    assert_eq!(parse_integer(b"+1"), None);
    assert_eq!(parse_integer(b"1.5"), None);
    assert_eq!(parse_integer(b"1e3"), None);
    assert_eq!(parse_integer(b" 1"), None);
    assert_eq!(parse_integer(b"12a"), None);
    assert_eq!(parse_integer(b"--1"), None);
}

#[test]
fn test_path_on_broken_buffers() {
    let path = parse_json_path("$.a[0]").unwrap();
    assert_eq!(get_by_path(&[], &path), Vec::<Vec<u8>>::new());
    assert_eq!(get_by_path(b"{\"a\":[1]}", &path), Vec::<Vec<u8>>::new());
    let good = encoded(r#"{"a":[1]}"#);
    assert_eq!(get_by_path(&good, &path), expect_all(&["1"]));
    assert_eq!(get_by_path(&good[..good.len() - 1], &path), Vec::<Vec<u8>>::new());
    // The root itself is arrived at whatever the buffer holds.
    let root = parse_json_path("$").unwrap();
    assert_eq!(get_by_path(&[1, 2, 3], &root), vec![vec![1, 2, 3]]);
    // A filter holds of no value that cannot be read.
    let exists = parse_json_path("$?(@)").unwrap();
    assert_eq!(get_by_path(&[1, 2, 3], &exists), Vec::<Vec<u8>>::new());
    assert_eq!(get_by_path(&good, &exists).len(), 1);
}
