use json_codec::{deserialize, serialize, ByteSource, JSONError, Number, Object, Value};

fn decode(text: &str) -> Result<Value, JSONError> {
    deserialize(text.as_bytes())
}

fn number(text: &str) -> Value {
    Value::Number(Number::new(text).unwrap())
}

fn double(v: &Value) -> f64 {
    match v {
        Value::Number(n) => std::str::from_utf8(n.as_bytes()).unwrap().parse::<f64>().unwrap(),
        other => panic!("no number: {:?}", other),
    }
}

fn text(v: &Value) -> &str {
    match v {
        Value::String(s) => s.as_str(),
        other => panic!("no string: {:?}", other),
    }
}

fn message(r: Result<Value, JSONError>) -> String {
    match r {
        Ok(v) => panic!("decoded to {:?}", v),
        Err(e) => e.message().to_string(),
    }
}

#[test]
fn test_json() {
    let input = r#"
        {
          "an array": ["Hello \u25D0", "\"quoted\"\\\\\\n\\b\\u00F6", "", 11, -3.111111111111, 6.022e23, true, false, null],
          "empty_nested": [[{ "": [] }], "", { "": {} }, [{}, []], { "": [{ "": { "": {} } }] }],
          "object_nested": {
            "a": 1,
            "b": {
              "c": {
                "d": "deep"
              }
            }
          }
        }
"#;

    assert!(deserialize(input.as_bytes()).is_ok())
}

#[test]
fn empty_object_decodes_to_no_members() {
    match decode("{}").unwrap() {
        Value::Object(o) => {
            assert_eq!(o.len(), 0);
            assert!(o.is_empty());
        }
        other => panic!("no object: {:?}", other),
    }
}

#[test]
fn empty_array_decodes_to_no_elements() {
    match decode("[]").unwrap() {
        Value::Array(a) => assert!(a.is_empty()),
        other => panic!("no array: {:?}", other),
    }
}

#[test]
fn later_duplicate_key_overwrites() {
    match decode(r#"{"a":1,"a":2}"#).unwrap() {
        Value::Object(o) => {
            assert_eq!(o.len(), 1);
            assert_eq!(double(o.get("a").unwrap()), 2.0);
        }
        other => panic!("no object: {:?}", other),
    }
}

#[test]
fn overwritten_key_keeps_its_place() {
    match decode(r#"{"a":1,"b":2,"a":3}"#).unwrap() {
        Value::Object(o) => {
            assert_eq!(o.len(), 2);
            let (k0, v0) = o.entry(0).unwrap();
            let (k1, v1) = o.entry(1).unwrap();
            assert_eq!(k0, "a");
            assert_eq!(double(v0), 3.0);
            assert_eq!(k1, "b");
            assert_eq!(double(v1), 2.0);
            assert!(o.entry(2).is_none());
        }
        other => panic!("no object: {:?}", other),
    }
}

#[test]
fn unicode_escape_of_a_letter() {
    assert_eq!(text(&decode(r#""\u0041""#).unwrap()), "A");
}

#[test]
fn unicode_escape_of_o_umlaut() {
    assert_eq!(text(&decode(r#""\u00F6""#).unwrap()), "\u{f6}");
    assert_eq!(text(&decode(r#""\u00f6""#).unwrap()), "\u{f6}");
}

#[test]
fn unicode_escape_with_plus_sign_is_an_error() {
    assert_eq!(message(decode(r#""\u+041""#)), "invalid digit found in string");
    assert_eq!(message(decode(r#""\u+FFF""#)), "invalid digit found in string");
}

#[test]
fn bare_number_is_a_document() {
    let v = decode("42").unwrap();
    assert_eq!(double(&v), 42.0);
    match v {
        Value::Number(n) => assert_eq!(n.as_bytes(), b"42"),
        other => panic!("no number: {:?}", other),
    }
}

#[test]
fn bare_string_is_a_document() {
    assert_eq!(text(&decode(r#""x""#).unwrap()), "x");
}

#[test]
fn bare_literals_are_documents() {
    assert!(matches!(decode("true").unwrap(), Value::Boolean(true)));
    assert!(matches!(decode("false").unwrap(), Value::Boolean(false)));
    assert!(matches!(decode("null").unwrap(), Value::Null));
}

#[test]
fn missing_value_is_an_error() {
    assert_eq!(message(decode(r#"{"a":}"#)), "unexpected token");
}

#[test]
fn missing_colon_is_named() {
    let m = message(decode(r#"{"a" 1}"#));
    assert_eq!(m, "expected colon");
    assert!(m.contains("colon"));
}

#[test]
fn unterminated_string_ends_the_input() {
    assert_eq!(message(decode(r#""abc"#)), "EOF");
    assert_eq!(message(decode(r#"{"a": "b"#)), "EOF");
}

#[test]
fn nested_example() {
    match decode(r#"{"a": [1, 2.5, true, null, "x"]}"#).unwrap() {
        Value::Object(o) => {
            assert_eq!(o.len(), 1);
            match o.get("a").unwrap() {
                Value::Array(items) => {
                    assert_eq!(items.len(), 5);
                    assert_eq!(double(&items[0]), 1.0);
                    assert_eq!(double(&items[1]), 2.5);
                    assert!(matches!(items[2], Value::Boolean(true)));
                    assert!(matches!(items[3], Value::Null));
                    assert_eq!(text(&items[4]), "x");
                }
                other => panic!("no array: {:?}", other),
            }
            assert!(o.get("b").is_none());
        }
        other => panic!("no object: {:?}", other),
    }
}

#[test]
fn empty_input_ends_the_input() {
    assert_eq!(message(decode("")), "EOF");
    assert_eq!(message(decode(" \t\r\n")), "EOF");
}

#[test]
fn unclosed_containers_end_the_input() {
    assert_eq!(message(decode("[")), "EOF");
    assert_eq!(message(decode("[1")), "EOF");
    assert_eq!(message(decode("[1,")), "EOF");
    assert_eq!(message(decode("{")), "EOF");
    assert_eq!(message(decode(r#"{"a""#)), "EOF");
    assert_eq!(message(decode(r#"{"a":"#)), "EOF");
    assert_eq!(message(decode(r#"{"a":1"#)), "EOF");
}

#[test]
fn key_must_be_a_string() {
    assert_eq!(message(decode("{1:2}")), "expected string");
    assert_eq!(message(decode("{,}")), "expected string");
}

#[test]
fn member_must_be_followed_by_comma_or_brace() {
    assert_eq!(message(decode(r#"{"a":1 "b":2}"#)), "expected comma or }");
    assert_eq!(message(decode(r#"{"a":1]"#)), "expected comma or }");
}

#[test]
fn element_must_be_followed_by_comma_or_bracket() {
    assert_eq!(message(decode("[1 2]")), "expected comma or ]");
    assert_eq!(message(decode("[1}")), "expected comma or ]");
}

#[test]
fn token_that_starts_no_value() {
    assert_eq!(message(decode("]")), "unexpected token");
    assert_eq!(message(decode("}")), "unexpected token");
    assert_eq!(message(decode(",")), "unexpected token");
    assert_eq!(message(decode(":")), "unexpected token");
    assert_eq!(message(decode("[,]")), "unexpected token");
}

#[test]
fn unknown_escape() {
    assert_eq!(message(decode(r#""\x""#)), "expected \", \\, /, b, f, n, r, t or u");
}

#[test]
fn escape_cut_short() {
    assert_eq!(message(decode("\"\\")), "EOF");
    assert_eq!(message(decode("\"\\u12")), "EOF");
}

#[test]
fn hex_that_is_no_number() {
    assert_eq!(message(decode(r#""\u00G1""#)), "invalid digit found in string");
    assert_eq!(message(decode(r#""\u-041""#)), "invalid digit found in string");
    assert_eq!(message(decode(r#""\u++41""#)), "invalid digit found in string");
}

fn utf8_failure(bytes: &[u8]) -> String {
    String::from_utf8(bytes.to_vec()).unwrap_err().to_string()
}

#[test]
fn hex_that_is_no_text() {
    let input: &[u8] = &[b'"', b'\\', b'u', b'0', 0xff, b'0', b'0', b'"'];
    assert_eq!(message(deserialize(input)), "invalid utf-8 sequence of 1 bytes from index 1");
    assert_eq!(message(deserialize(input)), utf8_failure(&[b'0', 0xff, b'0', b'0']));
}

#[test]
fn surrogate_is_no_character() {
    assert_eq!(message(decode(r#""\uD800""#)), "invalid unicode code point");
    assert_eq!(message(decode(r#""\uDFFF""#)), "invalid unicode code point");
    assert_eq!(text(&decode(r#""\uD7FF""#).unwrap()), "\u{d7ff}");
    assert_eq!(text(&decode(r#""\uE000""#).unwrap()), "\u{e000}");
}

#[test]
fn lexeme_that_is_no_number() {
    assert_eq!(message(decode("tru")), "invalid float literal");
    assert_eq!(message(decode("nulls")), "invalid float literal");
    assert_eq!(message(decode("1e")), "invalid float literal");
    assert_eq!(message(decode("0x10")), "invalid float literal");
    assert_eq!(message(decode("[1, a]")), "invalid float literal");
}

#[test]
fn lexeme_that_is_no_text() {
    let input: &[u8] = &[b'1', 0xff];
    assert_eq!(message(deserialize(input)), "invalid utf-8 sequence of 1 bytes from index 1");
    assert_eq!(message(deserialize(input)), utf8_failure(input));
    let input: &[u8] = &[b'[', b'7', 0xe2, 0x82, b']'];
    assert_eq!(message(deserialize(input)), utf8_failure(&[b'7', 0xe2, 0x82]));
    let input: &[u8] = &[0xc3, 0xb6];
    assert_eq!(message(deserialize(input)), "invalid float literal");
}

#[test]
fn simple_escapes() {
    assert_eq!(text(&decode(r#""\"\\\/\b\f\n\r\t""#).unwrap()), "\"\\/\u{8}\u{c}\n\r\t");
}

#[test]
fn bytes_of_a_string_are_utf8() {
    let input: &[u8] = &[b'"', 0xc3, 0xb6, b'"'];
    assert_eq!(text(&deserialize(input).unwrap()), "\u{f6}");
    assert_eq!(text(&decode("\"gr\u{fc}\u{df}e \u{65e5}\u{672c} \u{1f600}\"").unwrap()),
        "gr\u{fc}\u{df}e \u{65e5}\u{672c} \u{1f600}");
    let v = decode("[\"\u{e9}\\n\u{e9}\\u00e9\u{4e2d}\", {\"\u{e4}\": \"\u{f6}\"}]").unwrap();
    match v {
        Value::Array(items) => {
            assert_eq!(text(&items[0]), "\u{e9}\n\u{e9}\u{e9}\u{4e2d}");
            match &items[1] {
                Value::Object(o) => assert_eq!(text(o.get("\u{e4}").unwrap()), "\u{f6}"),
                other => panic!("no object: {:?}", other),
            }
        }
        other => panic!("no array: {:?}", other),
    }
}

#[test]
fn string_that_is_no_text() {
    let input: &[u8] = &[b'"', 0xff, b'"'];
    assert_eq!(message(deserialize(input)), "invalid utf-8 sequence of 1 bytes from index 0");
    let input: &[u8] = &[b'"', b'a', 0xc3, b'"'];
    assert_eq!(message(deserialize(input)), "incomplete utf-8 byte sequence from index 1");
    assert_eq!(message(deserialize(input)), utf8_failure(&[b'a', 0xc3]));
    let input: &[u8] = &[b'"', 0xc3, b'\\', b'n', 0xb6, b'"'];
    assert_eq!(message(deserialize(input)), utf8_failure(&[0xc3]));
    let input: &[u8] = &[b'"', b'a', b'\\', b'n', 0xed, 0xa0, 0x80, b'"'];
    assert_eq!(message(deserialize(input)), utf8_failure(&[0xed, 0xa0, 0x80]));
    let input: &[u8] = &[b'"', 0xc0, 0xaf, b'"'];
    assert_eq!(message(deserialize(input)), utf8_failure(&[0xc0, 0xaf]));
    let input: &[u8] = &[b'"', 0xff];
    assert_eq!(message(deserialize(input)), "EOF");
    let input: &[u8] = &[b'"', 0xff, b'\\', b'x', b'"'];
    assert_eq!(message(deserialize(input)), utf8_failure(&[0xff]));
}

#[test]
fn round_trip_of_text_beyond_ascii() {
    let v = decode("\"\u{e9}\u{4e2d} \\u00e9\"").unwrap();
    assert_eq!(text(&v), "\u{e9}\u{4e2d} \u{e9}");
    let encoded = serialize(v.clone()).unwrap();
    assert_eq!(encoded.as_bytes(), b"\"\\u00E9\\u4E2D \\u00E9\"");
    assert_eq!(deserialize(encoded.as_bytes()).unwrap(), v);
}

#[test]
fn what_follows_the_value_is_ignored() {
    assert_eq!(double(&decode("1 garbage").unwrap()), 1.0);
    assert_eq!(double(&decode("1]").unwrap()), 1.0);
    assert_eq!(text(&decode(r#""a""b""#).unwrap()), "a");
    assert!(matches!(decode("[] \"").unwrap(), Value::Array(_)));
}

#[test]
fn comma_before_the_end_is_accepted() {
    match decode("[1,]").unwrap() {
        Value::Array(items) => assert_eq!(items.len(), 1),
        other => panic!("no array: {:?}", other),
    }
    match decode(r#"{"a":1,}"#).unwrap() {
        Value::Object(o) => assert_eq!(o.len(), 1),
        other => panic!("no object: {:?}", other),
    }
}

#[test]
fn number_literals() {
    for good in [
        "0", "11", "-3.111111111111", "6.022e23", "1.", ".5", "+1", "-.5e-3", "1E+2", "1.e5",
        "inf", "-inf", "+Infinity", "NaN", "nan", "iNfInItY",
    ] {
        let n = Number::new(good).unwrap_or_else(|| panic!("{} refused", good));
        assert_eq!(n.as_bytes(), good.as_bytes());
        assert_eq!(n.to_text(), good);
        assert!(good.parse::<f64>().is_ok(), "{}", good);
    }
    for bad in [
        "", "+", "-", ".", "e5", "1e", "1e+", "1e5x", "--1", "1..2", "1.2.3", "0x10", " 1", "1 ",
        "infinit", "nane", "1_0", "١",
    ] {
        assert!(Number::new(bad).is_none(), "{} accepted", bad);
        assert!(bad.parse::<f64>().is_err(), "{}", bad);
    }
    assert!(Number::from_bytes(&[0x31, 0xff]).is_none());
    assert_eq!(Number::from_bytes(b"2.5").unwrap().as_bytes(), b"2.5");
}

#[test]
fn number_values() {
    assert_eq!(double(&decode("11").unwrap()), 11.0);
    assert_eq!(double(&decode("-3.111111111111").unwrap()), -3.111111111111);
    assert_eq!(double(&decode("6.022e23").unwrap()), 6.022e23);
    assert!(double(&decode("-inf").unwrap()).is_infinite());
    assert!(double(&decode("NaN").unwrap()).is_nan());
}

#[test]
fn encodes_scalars() {
    assert_eq!(serialize(Value::Null).unwrap(), "null");
    assert_eq!(serialize(Value::Boolean(true)).unwrap(), "true");
    assert_eq!(serialize(Value::Boolean(false)).unwrap(), "false");
    assert_eq!(serialize(number("2.5")).unwrap(), "2.5");
    assert_eq!(serialize(number(&42.0f64.to_string())).unwrap(), "42");
    assert_eq!(serialize(Value::String("x".to_string())).unwrap(), "\"x\"");
    assert_eq!(serialize(Value::String(String::new())).unwrap(), "\"\"");
}

#[test]
fn encodes_escapes() {
    let v = Value::String("\"\\/\u{8}\u{c}\n\r\t".to_string());
    assert_eq!(v.to_json().unwrap(), r#""\"\\\/\b\f\n\r\t""#);
}

#[test]
fn encodes_characters_beyond_ascii_in_capital_hex() {
    assert_eq!(Value::String("\u{f6}".to_string()).to_json().unwrap(), r#""\u00F6""#);
    assert_eq!(Value::String("\u{25d0}".to_string()).to_json().unwrap(), r#""\u25D0""#);
    assert_eq!(Value::String("\u{80}".to_string()).to_json().unwrap(), r#""\u0080""#);
    assert_eq!(Value::String("\u{ffff}".to_string()).to_json().unwrap(), r#""\uFFFF""#);
    assert_eq!(Value::String("a\u{abcd}b".to_string()).to_json().unwrap(), r#""a\uABCDb""#);
}

#[test]
fn encodes_characters_beyond_the_basic_plane_with_more_digits() {
    assert_eq!(Value::String("\u{1f600}".to_string()).to_json().unwrap(), r#""\u1F600""#);
    assert_eq!(Value::String("\u{10000}".to_string()).to_json().unwrap(), r#""\u10000""#);
    assert_eq!(Value::String("\u{10ffff}".to_string()).to_json().unwrap(), r#""\u10FFFF""#);
}

#[test]
fn control_character_is_an_error() {
    for c in ['\u{0}', '\u{1}', '\u{7}', '\u{b}', '\u{e}', '\u{1f}', '\u{7f}'] {
        let e = Value::String(format!("a{}b", c)).to_json().unwrap_err();
        assert_eq!(e.message(), "control characters not allowed");
    }
    let mut o = Object::new();
    o.insert("k\u{1}".to_string(), Value::Null);
    assert_eq!(
        serialize(Value::Object(o)).unwrap_err(),
        JSONError::new("control characters not allowed")
    );
    let v = Value::Array(vec![Value::Null, Value::String("\u{2}".to_string())]);
    assert!(serialize(v).is_err());
    assert_eq!(Value::String(" ~".to_string()).to_json().unwrap(), "\" ~\"");
}

#[test]
fn encodes_containers() {
    assert_eq!(serialize(Value::Array(Vec::new())).unwrap(), "[]");
    assert_eq!(serialize(Value::Object(Object::new())).unwrap(), "{}");
    let v = Value::Array(vec![number("1"), Value::Boolean(true), Value::Null]);
    assert_eq!(serialize(v).unwrap(), "[1, true, null]");
    let mut o = Object::new();
    o.insert("a".to_string(), number("1"));
    o.insert("b".to_string(), Value::Array(vec![Value::String("x".to_string())]));
    assert_eq!(serialize(Value::Object(o)).unwrap(), r#"{"a": 1, "b": ["x"]}"#);
}

#[test]
fn object_insert_get_and_entry() {
    let mut o = Object::new();
    assert!(o.is_empty());
    assert!(o.get("a").is_none());
    o.insert("a".to_string(), number("1"));
    o.insert("b".to_string(), number("2"));
    o.insert("a".to_string(), number("3"));
    assert_eq!(o.len(), 2);
    assert_eq!(double(o.get("a").unwrap()), 3.0);
    assert_eq!(double(o.get("b").unwrap()), 2.0);
    assert!(o.get("c").is_none());
    assert_eq!(o.entry(0).unwrap().0, "a");
    assert_eq!(o.entry(1).unwrap().0, "b");
    assert!(o.entry(2).is_none());
}

fn sample() -> Value {
    let mut inner = Object::new();
    inner.insert("".to_string(), Value::Array(Vec::new()));
    inner.insert("k/\"".to_string(), Value::String("tab\there \u{e9}\u{4e2d}".to_string()));
    let mut o = Object::new();
    o.insert("an array".to_string(), Value::Array(vec![
        Value::String("Hello \u{25d0}".to_string()),
        number("11"),
        number("-3.111111111111"),
        number("6.022e23"),
        Value::Boolean(true),
        Value::Boolean(false),
        Value::Null,
        Value::Object(Object::new()),
    ]));
    o.insert("inner".to_string(), Value::Object(inner));
    Value::Object(o)
}

fn same(a: &Value, b: &Value) -> bool {
    match (a, b) {
        (Value::String(x), Value::String(y)) => x == y,
        (Value::Number(x), Value::Number(y)) => x.as_bytes() == y.as_bytes(),
        (Value::Boolean(x), Value::Boolean(y)) => x == y,
        (Value::Null, Value::Null) => true,
        (Value::Array(x), Value::Array(y)) => {
            x.len() == y.len() && x.iter().zip(y.iter()).all(|(p, q)| same(p, q))
        }
        (Value::Object(x), Value::Object(y)) => {
            x.len() == y.len()
                && (0..x.len()).all(|i| {
                    let (k, v) = x.entry(i).unwrap();
                    let (l, w) = y.entry(i).unwrap();
                    k == l && same(v, w)
                })
        }
        _ => false,
    }
}

#[test]
fn round_trip_of_a_sample() {
    let v = sample();
    let encoded = serialize(v.clone()).unwrap();
    let decoded = deserialize(encoded.as_bytes()).unwrap();
    assert!(same(&v, &decoded));
    assert_eq!(decoded, v);
    assert_eq!(serialize(decoded).unwrap(), encoded);
}

#[test]
fn round_trip_of_scalars() {
    for v in [
        Value::Null,
        Value::Boolean(true),
        Value::Boolean(false),
        number("0"),
        number("-1.5e-7"),
        number("inf"),
        number("NaN"),
        Value::String(String::new()),
        Value::String("\"\\/\u{8}\u{c}\n\r\t \u{80}\u{ffff}".to_string()),
        Value::Array(Vec::new()),
        Value::Object(Object::new()),
    ] {
        let encoded = serialize(v.clone()).unwrap();
        assert!(encoded.is_ascii());
        assert_eq!(deserialize(encoded.as_bytes()).unwrap(), v);
    }
}

#[test]
fn values_compare_without_the_order_of_members() {
    let a = decode(r#"{"a": 1, "b": [true, {"x": null, "y": "z"}]}"#).unwrap();
    let b = decode(r#"{"b": [true, {"y": "z", "x": null}], "a": 1}"#).unwrap();
    assert_eq!(a, b);
    assert_eq!(b, a);
    let c = decode(r#"{"a": 1, "b": [{"x": null, "y": "z"}, true]}"#).unwrap();
    assert_ne!(a, c);
    let d = decode(r#"{"a": 1}"#).unwrap();
    assert_ne!(a, d);
    assert_ne!(d, a);
    let e = decode(r#"{"a": 1, "c": [true, {"x": null, "y": "z"}]}"#).unwrap();
    assert_ne!(a, e);
    assert_ne!(decode("[1, 2]").unwrap(), decode("[1]").unwrap());
    assert_ne!(decode("[1, 2]").unwrap(), decode("[2, 1]").unwrap());
    assert_ne!(decode("null").unwrap(), decode("false").unwrap());
    assert_ne!(decode(r#""1""#).unwrap(), decode("1").unwrap());
    assert_eq!(decode(r#""a""#).unwrap(), Value::String("a".to_string()));
}

#[test]
fn numbers_compare_by_their_literals() {
    assert_eq!(number("1"), decode("1").unwrap());
    assert_ne!(number("1"), number("1.0"));
    assert_ne!(number("1"), number("2"));
    assert_eq!(Number::new("2.5"), Number::from_bytes(b"2.5"));
    assert_eq!(double(&number("1")), double(&number("1.0")));
}

#[test]
fn round_trip_fails_beyond_the_basic_plane() {
    let v = Value::String("\u{1f600}".to_string());
    let encoded = serialize(v).unwrap();
    let decoded = deserialize(encoded.as_bytes()).unwrap();
    assert_eq!(text(&decoded), "\u{1f60}0");
}

#[test]
fn whitespace_between_tokens_changes_nothing() {
    let compact = r#"{"a":[1,2.5,true,null,"x y"],"b":{}}"#;
    let spaced = " \n{\t\"a\" :\r\n [ 1 ,2.5\t, true , null ,\n\"x y\" ]\n , \"b\" : { } } ";
    let a = decode(compact).unwrap();
    let b = decode(spaced).unwrap();
    assert!(same(&a, &b));
    assert_eq!(message(decode(r#"{"a" 1}"#)), message(decode("{ \"a\"\n\t1 }")));
}

#[test]
fn clone_keeps_the_value() {
    let v = sample();
    let w = v.clone();
    assert!(same(&v, &w));
    let e = JSONError::new("EOF");
    assert_eq!(e.clone(), e);
    assert_eq!(JSONError::from_text("EOF".to_string()), e);
    assert_eq!(JSONError::from_text("expected colon".to_string()).message(), "expected colon");
    let n = Number::new("1e3").unwrap();
    assert_eq!(n.clone().as_bytes(), b"1e3");
}

#[test]
fn slice_is_a_byte_source() {
    let mut s: &[u8] = b"ab";
    assert_eq!(s.current(), Some(b'a'));
    assert_eq!(s.current(), Some(b'a'));
    assert_eq!(s.advance(), Some(b'a'));
    assert_eq!(s.current(), Some(b'b'));
    assert_eq!(s.advance(), Some(b'b'));
    assert_eq!(s.current(), None);
    assert_eq!(s.advance(), None);
    assert_eq!(s.advance(), None);
}

fn words(alphabet: &[char], longest: usize) -> Vec<String> {
    let mut all = vec![String::new()];
    let mut last = vec![String::new()];
    for _ in 0..longest {
        let mut next = Vec::new();
        for w in &last {
            for c in alphabet {
                let mut longer = w.clone();
                longer.push(*c);
                next.push(longer);
            }
        }
        all.extend(next.iter().cloned());
        last = next;
    }
    all
}

#[test]
fn number_literals_are_what_the_standard_library_reads() {
    let alphabet = ['+', '-', '.', 'e', 'E', '0', '7', 'i', 'n', 'f', 'a', 'N', 't', 'y', ' '];
    for w in words(&alphabet, 4) {
        assert_eq!(Number::new(&w).is_some(), w.parse::<f64>().is_ok(), "{:?}", w);
    }
    for w in ["infinity", "+INFINITY", "-Infinity", "infinitx", "infinityy", "1e+10", "1.5E-10"] {
        assert_eq!(Number::new(w).is_some(), w.parse::<f64>().is_ok(), "{:?}", w);
    }
}

#[test]
fn escaped_code_points_take_four_hexadecimal_digits() {
    let alphabet = ['0', '9', 'a', 'f', 'A', 'F', 'g', 'G', 'D', '8', '+', '-', ' '];
    for w in words(&alphabet, 4) {
        if w.len() != 4 {
            continue;
        }
        let expected = if w.chars().all(|c| c.is_ascii_hexdigit()) {
            u32::from_str_radix(&w, 16).ok().and_then(char::from_u32)
        } else {
            None
        };
        let decoded = decode(&format!("\"\\u{}\"", w));
        match expected {
            Some(c) => assert_eq!(text(&decoded.unwrap()), c.to_string(), "{:?}", w),
            None => assert!(decoded.is_err(), "{:?}", w),
        }
    }
}
