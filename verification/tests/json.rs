use std::collections::HashMap;

use playground::json::{parse, parse_str, Expected, Json, JsonError, JsonObject, JsonReader};

/// A document with its numbers converted and its objects as hash maps.
#[derive(Debug, PartialEq)]
enum Value {
    Null,
    Boolean(bool),
    Number(f64),
    String(String),
    Array(Vec<Value>),
    Object(HashMap<String, Value>),
}

fn value_of(json: &Json) -> Value {
    match json {
        Json::Null => Value::Null,
        Json::Boolean(b) => Value::Boolean(*b),
        Json::Number(literal) => Value::Number(literal.parse().unwrap()),
        Json::String(s) => Value::String(s.clone()),
        Json::Array(items) => Value::Array(items.iter().map(value_of).collect()),
        Json::Object(object) => {
            let mut map = HashMap::new();
            for (key, value) in object.entries() {
                map.insert(key.clone(), value_of(value));
            }
            Value::Object(map)
        }
    }
}

fn parsed(text: &str) -> Value {
    value_of(&parse_str(text).unwrap())
}

fn string(text: &str) -> Value {
    Value::String(text.to_string())
}

fn object(pairs: Vec<(&str, Value)>) -> Value {
    let mut map = HashMap::new();
    for (key, value) in pairs {
        map.insert(key.to_string(), value);
    }
    Value::Object(map)
}

#[test]
fn test_parse_complex_object() {
    let obj = object(vec![(
        "array",
        Value::Array(vec![
            object(vec![("num", Value::Number(1.0)), ("str", string("hello"))]),
            Value::Number(2.0),
            string("world"),
        ]),
    )]);
    assert_eq!(
        parsed(
            r#"
    {
        "array": [
            {
                "num": 1,
                "str": "hello"
            },
            2,
            "world"
        ]
    }
    "#
        ),
        obj
    );
}

#[test]
fn test_parse_object_with_1_pair() {
    let obj = object(vec![("hello", string("world"))]);
    assert_eq!(parsed(r#"{"hello":"world"}"#), obj);
}

#[test]
fn test_parse_object_with_2_pairs() {
    let obj = object(vec![("hello", string("world")), ("foo", string("bar"))]);
    assert_eq!(parsed(r#"{"hello":"world","foo":"bar"}"#), obj);
}

#[test]
fn test_parse_array_with_1_value() {
    let array = Value::Array(vec![string("hello")]);
    assert_eq!(parsed(r#"["hello"]"#), array);
}

#[test]
fn test_parse_array_with_2_values() {
    let array = Value::Array(vec![string("hello"), string("world")]);
    assert_eq!(parsed(r#"["hello","world"]"#), array);
}

#[test]
fn test_parse_string() {
    assert_eq!(parsed(r#""hello""#), string("hello"));
}

#[test]
fn test_parse_string_with_lf() {
    assert_eq!(parsed(r#""hello\nworld""#), string("hello\nworld"));
}

#[test]
fn test_parse_string_with_codepoint() {
    assert_eq!(parsed(r#""hello \u0052\u0075\u0073\u0074""#), string("hello Rust"));
}

#[test]
fn test_parse_string_with_surrogate_pair_codepoint() {
    assert_eq!(parsed(r#""hello \uD83E\uDD80""#), string("hello \u{1F980}"));
}

#[test]
fn test_parse_string_with_bad_surrogate_pair_codepoint() {
    assert!(parse_str(r#""hello \uD83E\u0041""#).is_err());
}

#[test]
fn test_parse_string_with_unexpected_eof() {
    assert!(parse_str(r#""hel"#).is_err());
}

#[test]
fn test_parse_number() {
    assert_eq!(parsed("0"), Value::Number(0f64));
    assert_eq!(parsed("1"), Value::Number(1f64));
    assert_eq!(parsed("123"), Value::Number(123f64));
    assert_eq!(parsed("-0"), Value::Number(0f64));
    assert_eq!(parsed("-1"), Value::Number(-1f64));
    assert_eq!(parsed("-123"), Value::Number(-123f64));
}

#[test]
fn test_parse_number_with_fraction() {
    assert_eq!(parsed("123.5"), Value::Number(123.5f64));
    assert_eq!(parsed("123.25"), Value::Number(123.25f64));
    assert_eq!(parsed("0.5"), Value::Number(0.5f64));
    assert_eq!(parsed("0.000"), Value::Number(0.000f64));
}

#[test]
fn test_parse_number_with_fraction_and_exponent() {
    assert_eq!(parsed("123.25e+2"), Value::Number(123.25e+2f64));
    assert_eq!(parsed("123.25e-2"), Value::Number(123.25e-2f64));
}

#[test]
fn test_parse_number_with_exponent() {
    assert_eq!(parsed("0e-3"), Value::Number(0e-3f64));
    assert_eq!(parsed("0e+3"), Value::Number(0e+3f64));
    assert_eq!(parsed("123e-10"), Value::Number(123e-10f64));
    assert_eq!(parsed("123e+10"), Value::Number(123e+10f64));
    assert_eq!(parsed("123e-01"), Value::Number(123e-01f64));
    assert_eq!(parsed("123e+01"), Value::Number(123e+01f64));
    assert_eq!(parsed("-0e-3"), Value::Number(0e-3f64));
    assert_eq!(parsed("-0e+3"), Value::Number(0e+3f64));
    assert_eq!(parsed("-123e-10"), Value::Number(-123e-10f64));
    assert_eq!(parsed("-123e+10"), Value::Number(-123e+10f64));
    assert_eq!(parsed("-123e-01"), Value::Number(-123e-01f64));
    assert_eq!(parsed("-123e+01"), Value::Number(-123e+01f64));
}

#[test]
fn test_parse_bad_number() {
    assert!(parse_str("01").is_err());
    assert!(parse_str("0.").is_err());
    assert!(parse_str("0.e-3").is_err());
    assert!(parse_str("1.").is_err());
    assert!(parse_str("1.e-3").is_err());
    assert!(parse_str("1e3").is_err());
    assert!(parse_str("-").is_err());
    assert!(parse_str("-01").is_err());
    assert!(parse_str("-0.").is_err());
    assert!(parse_str("-0.e-3").is_err());
    assert!(parse_str("-1.").is_err());
    assert!(parse_str("-1.e-3").is_err());
    assert!(parse_str("-1e3").is_err());
}

#[test]
fn test_parse_true() {
    assert_eq!(parsed("true"), Value::Boolean(true));
}

#[test]
fn test_parse_false() {
    assert_eq!(parsed("false"), Value::Boolean(false));
}

#[test]
fn test_parse_null() {
    assert_eq!(parsed("null"), Value::Null);
}

#[test]
fn test_parse_null_with_bad_suffix() {
    assert!(parse_str("nullpo").is_err());
}

#[test]
fn test_parse_top_level_value_with_whitespaces() {
    assert_eq!(parsed("  null  "), Value::Null);
}

#[test]
fn number_keeps_the_text_of_its_literal() {
    match parse_str("-12.50E+03").unwrap() {
        Json::Number(literal) => assert_eq!(literal, "-12.50e+03"),
        other => panic!("not a number: {:?}", other),
    }
}

#[test]
fn trailing_text_is_refused() {
    assert_eq!(
        parse_str("null x").unwrap_err(),
        JsonError::UnexpectedChar { got: 'x', wanted: Expected::Eof }
    );
    assert_eq!(
        parse_str("01").unwrap_err(),
        JsonError::UnexpectedChar { got: '1', wanted: Expected::Eof }
    );
    assert_eq!(
        parse_str("1 2").unwrap_err(),
        JsonError::UnexpectedChar { got: '2', wanted: Expected::Eof }
    );
}

#[test]
fn all_white_space_codepoints_are_skipped() {
    assert_eq!(parsed(" \t\r\n[ \t\r\n1 \t\r\n, \t\r\n2 \t\r\n] \t\r\n"),
        Value::Array(vec![Value::Number(1.0), Value::Number(2.0)]));
    assert_eq!(
        parse_str("\u{b}null").unwrap_err(),
        JsonError::UnexpectedChar { got: '\u{b}', wanted: Expected::ValueStart }
    );
}

#[test]
fn empty_input_is_an_unexpected_end() {
    assert_eq!(parse_str("").unwrap_err(), JsonError::UnexpectedEof);
    assert_eq!(parse_str("   ").unwrap_err(), JsonError::UnexpectedEof);
}

#[test]
fn value_start_is_named_in_the_error() {
    assert_eq!(
        parse_str("x").unwrap_err(),
        JsonError::UnexpectedChar { got: 'x', wanted: Expected::ValueStart }
    );
    assert_eq!(
        parse_str("+1").unwrap_err(),
        JsonError::UnexpectedChar { got: '+', wanted: Expected::ValueStart }
    );
}

#[test]
fn literal_mismatch_names_the_codepoint_wanted() {
    assert_eq!(
        parse_str("nullpo").unwrap_err(),
        JsonError::UnexpectedChar { got: 'p', wanted: Expected::Eof }
    );
    assert_eq!(
        parse_str("nul").unwrap_err(),
        JsonError::UnexpectedEof
    );
    assert_eq!(
        parse_str("trve").unwrap_err(),
        JsonError::UnexpectedChar { got: 'v', wanted: Expected::Symbol('u') }
    );
    assert_eq!(
        parse_str("fals").unwrap_err(),
        JsonError::UnexpectedEof
    );
}

#[test]
fn number_errors() {
    assert_eq!(parse_str("-").unwrap_err(), JsonError::UnexpectedEof);
    assert_eq!(
        parse_str("-x").unwrap_err(),
        JsonError::UnexpectedChar { got: 'x', wanted: Expected::Digit }
    );
    assert_eq!(parse_str("0.").unwrap_err(), JsonError::UnexpectedEof);
    assert_eq!(
        parse_str("1.e-3").unwrap_err(),
        JsonError::UnexpectedChar { got: 'e', wanted: Expected::Digit }
    );
    assert_eq!(
        parse_str("1e3").unwrap_err(),
        JsonError::UnexpectedChar { got: '3', wanted: Expected::Sign }
    );
    assert_eq!(parse_str("1e").unwrap_err(), JsonError::UnexpectedEof);
    assert_eq!(parse_str("1e+").unwrap_err(), JsonError::UnexpectedEof);
    assert_eq!(
        parse_str("1E-x").unwrap_err(),
        JsonError::UnexpectedChar { got: 'x', wanted: Expected::Digit }
    );
}

#[test]
fn every_short_escape_is_decoded() {
    assert_eq!(
        parsed(r#""\"\\\/\b\f\n\r\t""#),
        string("\"\\/\u{8}\u{c}\n\r\t")
    );
    assert_eq!(
        parse_str(r#""\a""#).unwrap_err(),
        JsonError::UnexpectedChar { got: 'a', wanted: Expected::Escape }
    );
    assert_eq!(parse_str("\"\\").unwrap_err(), JsonError::UnexpectedEof);
}

#[test]
fn hexadecimal_digits_of_either_case() {
    assert_eq!(parsed(r#""\u00e9\u00E9\uaBcD""#), string("\u{e9}\u{e9}\u{abcd}"));
    assert_eq!(parsed(r#""\u0000""#), string("\u{0}"));
    assert_eq!(parsed(r#""\uffff""#), string("\u{ffff}"));
    assert_eq!(
        parse_str(r#""\u12G4""#).unwrap_err(),
        JsonError::UnexpectedChar { got: 'G', wanted: Expected::Digit }
    );
    assert_eq!(parse_str("\"\\u12").unwrap_err(), JsonError::UnexpectedEof);
}

#[test]
fn surrogate_pairs_combine() {
    assert_eq!(parsed(r#""\uD800\uDC00""#), string("\u{10000}"));
    assert_eq!(parsed(r#""\uDBFF\uDFFF""#), string("\u{10FFFF}"));
    assert_eq!(parsed(r#""\uD83E\uDD80""#), string("\u{1F980}"));
}

#[test]
fn surrogate_errors() {
    assert_eq!(
        parse_str(r#""\uD83E\u0041""#).unwrap_err(),
        JsonError::BadSurrogatePair { high: 0xD83E, low: Some(0x41) }
    );
    assert_eq!(
        parse_str(r#""\uD83E\uD83E""#).unwrap_err(),
        JsonError::BadSurrogatePair { high: 0xD83E, low: Some(0xD83E) }
    );
    assert_eq!(
        parse_str(r#""\uD83Ex""#).unwrap_err(),
        JsonError::BadSurrogatePair { high: 0xD83E, low: None }
    );
    assert_eq!(
        parse_str(r#""\uD83E\n""#).unwrap_err(),
        JsonError::BadSurrogatePair { high: 0xD83E, low: None }
    );
    assert_eq!(parse_str("\"\\uD83E").unwrap_err(), JsonError::UnexpectedEof);
    assert_eq!(parse_str("\"\\uD83E\\").unwrap_err(), JsonError::UnexpectedEof);
    assert_eq!(
        parse_str(r#""\uDD80""#).unwrap_err(),
        JsonError::BadCodePoint { value: 0xDD80 }
    );
}

#[test]
fn array_errors() {
    assert_eq!(parse_str("[").unwrap_err(), JsonError::UnexpectedEof);
    assert_eq!(parse_str("[1").unwrap_err(), JsonError::UnexpectedEof);
    assert_eq!(
        parse_str("[1 2]").unwrap_err(),
        JsonError::UnexpectedChar { got: '2', wanted: Expected::CommaOrBracket }
    );
    assert_eq!(
        parse_str("[]").unwrap_err(),
        JsonError::UnexpectedChar { got: ']', wanted: Expected::ValueStart }
    );
    assert_eq!(
        parse_str("[1,]").unwrap_err(),
        JsonError::UnexpectedChar { got: ']', wanted: Expected::ValueStart }
    );
}

#[test]
fn object_errors() {
    assert_eq!(parse_str("{").unwrap_err(), JsonError::UnexpectedEof);
    assert_eq!(
        parse_str("{}").unwrap_err(),
        JsonError::UnexpectedChar { got: '}', wanted: Expected::Symbol('"') }
    );
    assert_eq!(
        parse_str("{1:2}").unwrap_err(),
        JsonError::UnexpectedChar { got: '1', wanted: Expected::Symbol('"') }
    );
    assert_eq!(
        parse_str(r#"{"a" 1}"#).unwrap_err(),
        JsonError::UnexpectedChar { got: '1', wanted: Expected::Symbol(':') }
    );
    assert_eq!(
        parse_str(r#"{"a":1 "b":2}"#).unwrap_err(),
        JsonError::UnexpectedChar { got: '"', wanted: Expected::CommaOrBrace }
    );
    assert_eq!(parse_str(r#"{"a":1"#).unwrap_err(), JsonError::UnexpectedEof);
}

#[test]
fn repeated_key_keeps_the_last_value() {
    let json = parse_str(r#"{"a":1,"b":2,"a":3}"#).unwrap();
    assert_eq!(
        value_of(&json),
        object(vec![("a", Value::Number(3.0)), ("b", Value::Number(2.0))])
    );
    match json {
        Json::Object(members) => {
            assert_eq!(members.len(), 2);
            assert_eq!(value_of(members.get("a").unwrap()), Value::Number(3.0));
            assert_eq!(value_of(members.get("b").unwrap()), Value::Number(2.0));
            assert!(members.get("c").is_none());
        }
        other => panic!("not an object: {:?}", other),
    }
}

#[test]
fn nested_document_round_trips() {
    assert_eq!(
        parsed(r#"[1,[2,3],{"a":4}]"#),
        Value::Array(vec![
            Value::Number(1.0),
            Value::Array(vec![Value::Number(2.0), Value::Number(3.0)]),
            object(vec![("a", Value::Number(4.0))]),
        ])
    );
}

#[test]
fn object_insert_replaces_and_appends() {
    let mut members = JsonObject::new();
    assert_eq!(members.len(), 0);
    members.insert("k".to_string(), Json::Null);
    members.insert("l".to_string(), Json::Boolean(true));
    members.insert("k".to_string(), Json::Boolean(false));
    assert_eq!(members.len(), 2);
    assert_eq!(value_of(members.get("k").unwrap()), Value::Boolean(false));
    assert_eq!(value_of(members.get("l").unwrap()), Value::Boolean(true));
    let keys: Vec<&str> = members.entries().iter().map(|(key, _)| key.as_str()).collect();
    assert_eq!(keys, vec!["k", "l"]);
}

#[test]
fn parse_takes_bytes() {
    assert_eq!(value_of(&parse(b" [true, false] ").unwrap()),
        Value::Array(vec![Value::Boolean(true), Value::Boolean(false)]));
    assert_eq!(parse(b"").unwrap_err(), JsonError::UnexpectedEof);
}

#[test]
fn peek_does_not_consume() {
    let mut reader = JsonReader::new(b"ab");
    assert_eq!(reader.peek_char(), Some('a'));
    assert_eq!(reader.peek_char(), Some('a'));
    assert_eq!(reader.read_char(), Some('a'));
    assert_eq!(reader.read_char(), Some('b'));
    assert_eq!(reader.peek_char(), None);
    assert_eq!(reader.read_char(), None);
    assert_eq!(reader.read_char(), None);
}

#[test]
fn reader_routines_leave_what_follows() {
    let mut reader = JsonReader::new(b"  \t12.5e+1,x");
    reader.skip_white_spaces();
    assert_eq!(value_of(&reader.read_number().unwrap()), Value::Number(125.0));
    assert_eq!(reader.skip_str(","), Ok(()));
    assert_eq!(
        reader.skip_str("y"),
        Err(JsonError::UnexpectedChar { got: 'x', wanted: Expected::Symbol('y') })
    );
    assert_eq!(reader.read_char(), None);

    let mut reader = JsonReader::new(b"007");
    let mut text = String::from("-");
    assert_eq!(reader.read_digits(&mut text), Ok(()));
    assert_eq!(text, "-007");

    let mut reader = JsonReader::new(b"00e9z");
    assert_eq!(reader.read_code_point_digits(), Ok(0xe9));
    assert_eq!(reader.read_char(), Some('z'));
}

#[test]
fn documents_are_equal_by_value() {
    let one = parse_str(r#"{"a":1,"b":[true,null,{"c":"d","e":{}}]}"#);
    assert!(one.is_err());
    let one = parse_str(r#"{"a":1,"b":[true,null,{"c":"d","e":[0]}]}"#).unwrap();
    let other = parse_str(r#" { "b" : [ true , null , { "e" : [ 0 ] , "c" : "d" } ] , "a" : 1 } "#).unwrap();
    assert!(one == other);
    assert!(other == one);
    assert!(parse_str("[1,2]").unwrap() != parse_str("[2,1]").unwrap());
    assert!(parse_str("[1,2]").unwrap() != parse_str("[1,2,3]").unwrap());
    assert!(parse_str(r#"{"a":1}"#).unwrap() != parse_str(r#"{"a":1,"b":2}"#).unwrap());
    assert!(parse_str(r#"{"a":1}"#).unwrap() != parse_str(r#"{"a":2}"#).unwrap());
    assert!(parse_str(r#"{"a":1}"#).unwrap() != parse_str(r#"{"b":1}"#).unwrap());
    assert!(parse_str(r#"{"a":1,"a":2}"#).unwrap() == parse_str(r#"{"a":2}"#).unwrap());
    assert!(parse_str("null").unwrap() != parse_str("false").unwrap());
    assert!(parse_str("\"1\"").unwrap() != parse_str("1").unwrap());
    assert!(parse_str("1E+2").unwrap() == parse_str("1e+2").unwrap());
    assert!(parse_str("1.0").unwrap() != parse_str("1").unwrap());
}
