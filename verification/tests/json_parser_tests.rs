use lib::json_parser::{bool_val, null_val, parse, skip_whitespace, JSONParseError, JSONValue, JsonNumber};
use std::collections::HashMap;

/// A JSON value with its numbers as `f64` and its objects as maps, to compare against.
#[derive(Debug, PartialEq)]
enum V {
    Null,
    True,
    False,
    Number(f64),
    String(String),
    Array(Vec<V>),
    Object(HashMap<String, V>),
}

fn number_value(n: &JsonNumber) -> f64 {
    let mut v: f64 = n.integer.parse::<f64>().unwrap();
    if !n.fraction.is_empty() {
        v += format!("0.{}", n.fraction).parse::<f64>().unwrap();
    }
    if n.negative {
        v *= -1.0;
    }
    if n.exponent != 0 {
        v *= 10_f64.powf(n.exponent as f64);
    }
    v
}

fn plain(v: &JSONValue) -> V {
    match v {
        JSONValue::Null => V::Null,
        JSONValue::True => V::True,
        JSONValue::False => V::False,
        JSONValue::Number(n) => V::Number(number_value(n)),
        JSONValue::String(s) => V::String(s.clone()),
        JSONValue::Array(items) => V::Array(items.iter().map(plain).collect()),
        JSONValue::Object(members) => {
            let mut map = HashMap::new();
            for (k, x) in members {
                map.insert(k.clone(), plain(x));
            }
            V::Object(map)
        }
    }
}

fn parse_plain(src: &str) -> Result<V, JSONParseError> {
    parse(src).map(|v| plain(&v))
}

#[test]
fn skip_whitespace_empty() {
    assert_eq!(skip_whitespace(""), "");
}

#[test]
fn skip_whitespace_space() {
    assert_eq!(skip_whitespace(" "), "");
}

#[test]
fn skip_whitespace_linefeed() {
    assert_eq!(skip_whitespace("\n"), "");
}

#[test]
fn skip_whitespace_actual_linefeed() {
    assert_eq!(skip_whitespace("\n"), "");
}

#[test]
fn skip_whitespace_tab() {
    assert_eq!(skip_whitespace("\t"), "");
}

#[test]
fn skip_whitespace_actual_tab() {
    assert_eq!(skip_whitespace("\t"), "");
}

#[test]
fn skip_whitespace_carriage_return() {
    assert_eq!(skip_whitespace("\r"), "");
}

#[test]
fn skip_whitespace_actual_carriage_return() {
    assert_eq!(skip_whitespace("\r"), "");
}

#[test]
fn bool_true() {
    match bool_val("true") {
        Ok((_, v)) => assert_eq!(v, JSONValue::True),
        Err(e) => panic!("Expected true, got {:?}", e),
    }
}

#[test]
fn bool_false() {
    match bool_val("false") {
        Ok((_, v)) => assert_eq!(v, JSONValue::False),
        Err(e) => panic!("Expected false, got {:?}", e),
    }
}

#[test]
fn parse_bool_true_with_trailing_space() {
    match parse_plain("true ") {
        Ok(v) => assert_eq!(v, V::True),
        Err(e) => panic!("Expected true, got {:?}", e),
    }
}

#[test]
fn json_bool_true() {
    match parse_plain("true") {
        Ok(v) => assert_eq!(v, V::True),
        Err(e) => panic!("Expected true, got {:?}", e),
    }
}

#[test]
fn json_bool_false() {
    match parse_plain("false") {
        Ok(v) => assert_eq!(v, V::False),
        Err(e) => panic!("Expected false, got {:?}", e),
    }
}

#[test]
fn json_null() {
    match parse_plain("null") {
        Ok(v) => assert_eq!(v, V::Null),
        Err(e) => panic!("Expected null, got {:?}", e),
    }
}

#[test]
fn json_integer_positive() {
    match parse_plain("123") {
        Ok(v) => assert_eq!(v, V::Number(123.0)),
        Err(e) => panic!("Expected 123, got {:?}", e),
    }
}

#[test]
fn json_integer_zero() {
    match parse_plain("0") {
        Ok(v) => assert_eq!(v, V::Number(0.0)),
        Err(e) => panic!("Expected 0, got {:?}", e),
    }
}

#[test]
fn json_integer_negative() {
    match parse_plain("-123") {
        Ok(v) => assert_eq!(v, V::Number(-123.0)),
        Err(e) => panic!("Expected -123, got {:?}", e),
    }
}

#[test]
fn json_integer_negative_zero() {
    match parse_plain("-0") {
        Ok(v) => assert_eq!(v, V::Number(0.0)),
        Err(e) => panic!("Expected -0, got {:?}", e),
    }
}

#[test]
fn json_float_positive() {
    match parse_plain("123.456") {
        Ok(v) => assert_eq!(v, V::Number(123.456)),
        Err(e) => panic!("Expected 123.456, got {:?}", e),
    }
}

#[test]
fn json_float_zero_something() {
    match parse_plain("0.5") {
        Ok(v) => assert_eq!(v, V::Number(0.5)),
        Err(e) => panic!("Expected 0.5, got {:?}", e),
    }
}

#[test]
fn json_float_negative_zero_something() {
    match parse_plain("-0.5") {
        Ok(v) => assert_eq!(v, V::Number(-0.5)),
        Err(e) => panic!("Expected -0.5, got {:?}", e),
    }
}

#[test]
fn json_float_negative() {
    match parse_plain("-123.456") {
        Ok(v) => assert_eq!(v, V::Number(-123.456)),
        Err(e) => panic!("Expected -123.456, got {:?}", e),
    }
}

#[test]
fn json_float_negative_exp() {
    match parse_plain("-123.456e-2") {
        Ok(v) => assert_eq!(v, V::Number(-1.23456)),
        Err(e) => panic!("Expected -1.23456, got {:?}", e),
    }
}

#[test]
fn json_float_positive_exp() {
    match parse_plain("123.456e2") {
        Ok(v) => assert_eq!(v, V::Number(12345.6)),
        Err(e) => panic!("Expected 12345.6, got {:?}", e),
    }
}

#[test]
fn json_integer_with_positive_exp() {
    match parse_plain("123e2") {
        Ok(v) => assert_eq!(v, V::Number(12300.0)),
        Err(e) => panic!("Expected 12300.0, got {:?}", e),
    }
}

#[test]
fn json_integer_with_explicit_positive_exp_sign() {
    match parse_plain("123e+2") {
        Ok(v) => assert_eq!(v, V::Number(12300.0)),
        Err(e) => panic!("Expected 12300.0, got {:?}", e),
    }
}

#[test]
fn json_basic_string() {
    match parse_plain(r#""Hello, World!""#) {
        Ok(v) => assert_eq!(v, V::String("Hello, World!".to_string())),
        Err(e) => panic!("Expected \"Hello, World!\", got {:?}", e),
    }
}

#[test]
fn json_string_with_all_escapes() {
    match parse(r#""\"\\\/\b\f\n\r\t\u0041\u007a""#) {
        Ok(JSONValue::String(s)) => {
            assert_eq!(s, "\"\\/\u{0008}\u{000c}\n\r\tAz");
        }
        Ok(other) => panic!("Expected String, got {:?}", other),
        Err(e) => panic!("Parse error: {:?}", e),
    }
}

#[test]
fn read_canada_json() {
    let canada_json_content = r#"{
            "name": "Canada",
            "provinces": [
                {"name": "Alberta", "capital": "Edmonton"},
                {"name": "British Columbia", "capital": "Victoria"}
            ]
        }"#;
    match parse(canada_json_content) {
        Ok(_) => {}
        Err(e) => panic!("Errored parsing canada.json content: {:?}", e),
    }
}

#[test]
fn read_twitter_json() {
    let twitter_json_content = r#"{
            "tweet": "Hello, Rust!",
            "user": {"name": "Rustacean", "followers": 1000}
        }"#;
    match parse(twitter_json_content) {
        Ok(_) => {}
        Err(e) => {
            let err_str = format!("Error parsing twitter.json content: {:?}", e);
            panic!("{}", err_str);
        }
    }
}

#[test]
fn json_escaped_newline() {
    let src = r#" "hi there\\nthis is a test" "#;
    let expected = "hi there\\nthis is a test";
    match parse(src) {
        Ok(JSONValue::String(s)) => {
            assert_eq!(s, expected.to_string());
        }
        Ok(other) => panic!("Expected string, got {:?}", other),
        Err(e) => panic!("Parse error for escaped newline: {:?}, input: '{}'", e, src),
    }
}

#[test]
fn json_actual_newline_in_string_via_escape() {
    let src = r#""Hello\nWorld""#;
    match parse(src) {
        Ok(JSONValue::String(s)) => assert_eq!(s, "Hello\nWorld"),
        Ok(other) => panic!("Expected String, got {:?}", other),
        Err(e) => panic!("Error parsing string with newline escape: {:?}", e),
    }
}

#[test]
fn json_list_of_numbers() {
    let src = r#"[1, 2, 3, 4, 5]"#;
    let expected = V::Array(vec![
        V::Number(1.0),
        V::Number(2.0),
        V::Number(3.0),
        V::Number(4.0),
        V::Number(5.0),
    ]);
    match parse_plain(src) {
        Ok(v) => assert_eq!(v, expected),
        Err(e) => panic!("Expected [1, 2, 3, 4, 5], got {:?}", e),
    }
}

#[test]
fn json_list_with_whitespace() {
    let src = r#"[ 1,  2 ,3 , 4 , 5 ]"#;
    let expected = V::Array(vec![
        V::Number(1.0),
        V::Number(2.0),
        V::Number(3.0),
        V::Number(4.0),
        V::Number(5.0),
    ]);
    match parse_plain(src) {
        Ok(v) => assert_eq!(v, expected),
        Err(e) => panic!("Expected [ 1,  2 ,3 , 4 , 5 ], got {:?}", e),
    }
}

#[test]
fn json_empty_list() {
    let src = r#"[]"#;
    let expected = V::Array(vec![]);
    match parse_plain(src) {
        Ok(v) => assert_eq!(v, expected),
        Err(e) => panic!("Expected [], got {:?}", e),
    }
}

#[test]
fn json_empty_list_with_whitespace() {
    let src = r#"[   ]"#;
    let expected = V::Array(vec![]);
    match parse_plain(src) {
        Ok(v) => assert_eq!(v, expected),
        Err(e) => panic!("Expected [   ], got {:?}", e),
    }
}

#[test]
fn json_simple_object() {
    let src = r#"{"key": "value"}"#;
    let mut map = HashMap::new();
    map.insert("key".to_string(), V::String("value".to_string()));
    let expected = V::Object(map);
    match parse_plain(src) {
        Ok(v) => assert_eq!(v, expected),
        Err(e) => panic!("Simple object test failed: {:?}, input: {}", e, src),
    }
}

#[test]
fn json_object_multiple_entries() {
    let src = r#"{"name": "John Doe", "age": 30, "isStudent": false}"#;
    match parse_plain(src) {
        Ok(V::Object(res_map)) => {
            assert_eq!(res_map.len(), 3);
            assert_eq!(res_map.get("name"), Some(&V::String("John Doe".to_string())));
            assert_eq!(res_map.get("age"), Some(&V::Number(30.0)));
            assert_eq!(res_map.get("isStudent"), Some(&V::False));
        }
        Ok(other) => panic!("Expected object, got {:?}", other),
        Err(e) => panic!("Multi-entry object test failed: {:?}, input: {}", e, src),
    }
}

#[test]
fn json_nested_object() {
    let src = r#"{"user": {"name": "Jane", "id": 123}, "active": true}"#;
    let mut inner_map = HashMap::new();
    inner_map.insert("name".to_string(), V::String("Jane".to_string()));
    inner_map.insert("id".to_string(), V::Number(123.0));

    let mut outer_map = HashMap::new();
    outer_map.insert("user".to_string(), V::Object(inner_map));
    outer_map.insert("active".to_string(), V::True);

    let expected = V::Object(outer_map);
    match parse_plain(src) {
        Ok(v) => assert_eq!(v, expected),
        Err(e) => panic!("Nested object test failed: {:?}, input: {}", e, src),
    }
}

#[test]
fn json_empty_object() {
    let src = r#"{}"#;
    let expected = V::Object(HashMap::new());
    match parse_plain(src) {
        Ok(v) => assert_eq!(v, expected),
        Err(e) => panic!("Empty object test failed: {:?}, input: {}", e, src),
    }
}

#[test]
fn json_object_with_whitespace() {
    let src = r#"{ "key" : "value" , "another" : 123 }"#;
    match parse_plain(src) {
        Ok(V::Object(res_map)) => {
            assert_eq!(res_map.len(), 2);
            assert_eq!(res_map.get("key"), Some(&V::String("value".to_string())));
            assert_eq!(res_map.get("another"), Some(&V::Number(123.0)));
        }
        Ok(other) => panic!("Expected object, got {:?}", other),
        Err(e) => panic!("Object with whitespace test failed: {:?}, input: {}", e, src),
    }
}

#[test]
fn parse_error_trailing_comma_in_array() {
    let src = "[1, 2, ]";
    match parse(src) {
        Err(JSONParseError::UnexpectedChar(_)) => {}
        Ok(v) => panic!("Expected error for trailing comma in array, got {:?}", v),
        Err(e) => panic!("Expected UnexpectedChar error, got {:?}", e),
    }
}

#[test]
fn parse_error_trailing_comma_in_object() {
    let src = r#"{"key": "value", }"#;
    match parse(src) {
        Err(JSONParseError::UnexpectedChar(_)) => {}
        Ok(v) => panic!("Expected error for trailing comma in object, got {:?}", v),
        Err(e) => panic!("Expected an error for trailing comma, got {:?}", e),
    }
}

#[test]
fn parse_error_missing_value_in_array() {
    let src = "[1, , 2]";
    match parse(src) {
        Err(JSONParseError::UnexpectedChar(_)) => {}
        Ok(v) => panic!("Expected error for missing value in array, got {:?}", v),
        Err(e) => panic!("Expected UnexpectedChar error, got {:?}", e),
    }
}

#[test]
fn parse_error_leading_comma_in_array() {
    let src = "[,1,2]";
    match parse(src) {
        Err(JSONParseError::UnexpectedChar(_)) => {}
        Ok(val) => panic!("Should have failed on leading comma in array, but got {:?}", val),
        Err(e) => panic!("Expected UnexpectedChar, got {:?}", e),
    }
}

#[test]
fn parse_error_leading_comma_in_object() {
    let src = "{, \"key\": \"value\"}";
    match parse(src) {
        Err(JSONParseError::UnexpectedChar(_)) => {}
        Ok(val) => panic!("Should have failed on leading comma in object, but got {:?}", val),
        Err(e) => panic!("Expected UnexpectedChar, got {:?}", e),
    }
}

#[test]
fn parse_error_extra_chars_after_json() {
    let src = r#"{"key": "value"} extra"#;
    match parse(src) {
        Err(JSONParseError::UnexpectedChar(_)) => {}
        Ok(v) => panic!("Expected error for extra chars, got {:?}", v),
        Err(e) => panic!("Expected UnexpectedChar error for extra chars, got {:?}", e),
    }
}

#[test]
fn parse_number_leading_zero_error() {
    let src = "0123";
    match parse(src) {
        Err(JSONParseError::UnexpectedChar(_)) => {}
        Ok(v) => panic!("Expected error for leading zero in number, got {:?}", v),
        Err(e) => panic!("Expected error for leading zero, got {:?}", e),
    }
}

#[test]
fn parse_number_invalid_exponent() {
    let src = "1e";
    match parse(src) {
        Err(JSONParseError::NotFound) => {}
        Ok(v) => panic!("Expected error for invalid exponent, got {:?}", v),
        Err(e) => panic!("Expected NotFound from exponent's digit parsing, got {:?}", e),
    }
}

#[test]
fn parse_number_invalid_exponent_sign_only() {
    let src = "1e+";
    match parse(src) {
        Err(JSONParseError::NotFound) => {}
        Ok(v) => panic!("Expected error for invalid exponent, got {:?}", v),
        Err(e) => panic!("Expected NotFound from exponent's digit parsing, got {:?}", e),
    }
}

#[test]
fn parse_unclosed_string() {
    let src = r#""abc"#;
    match parse(src) {
        Err(JSONParseError::MissingClosing(_)) => {}
        Ok(v) => panic!("Expected error for unclosed string, got {:?}", v),
        Err(e) => panic!("Expected MissingClosing error, got {:?}", e),
    }
}

#[test]
fn parse_unclosed_array() {
    let src = r#"[1, 2"#;
    match parse(src) {
        Err(JSONParseError::MissingClosing(_)) => {}
        Ok(v) => panic!("Expected error for unclosed array, got {:?}", v),
        Err(e) => panic!("Expected MissingClosing error, got {:?}", e),
    }
}

#[test]
fn parse_unclosed_object() {
    let src = r#"{"key": "value""#;
    match parse(src) {
        Err(JSONParseError::MissingClosing(_)) => {}
        Ok(v) => panic!("Expected error for unclosed object, got {:?}", v),
        Err(e) => panic!("Expected MissingClosing error, got {:?}", e),
    }
}

#[test]
fn parse_invalid_escape_sequence() {
    let src = r#""\x""#;
    match parse(src) {
        Err(JSONParseError::UnexpectedChar(_)) => {}
        Ok(v) => panic!("Expected error for invalid escape, got {:?}", v),
        Err(e) => panic!("Expected UnexpectedChar for invalid escape, got {:?}", e),
    }
}

// Further cases of the parser.

#[test]
fn skip_whitespace_keeps_text_after_leading_whitespace() {
    assert_eq!(skip_whitespace(" \t\n\r\x0c x y "), "x y ");
    assert_eq!(skip_whitespace("abc"), "abc");
}

#[test]
fn null_val_reads_null_and_rest() {
    match null_val("null, 1") {
        Ok((rest, v)) => {
            assert_eq!(v, JSONValue::Null);
            assert_eq!(rest, ", 1");
        }
        Err(e) => panic!("Expected null, got {:?}", e),
    }
    assert_eq!(null_val("nul"), Err(JSONParseError::NotFound));
}

#[test]
fn bool_val_keeps_rest() {
    match bool_val("false]") {
        Ok((rest, v)) => {
            assert_eq!(v, JSONValue::False);
            assert_eq!(rest, "]");
        }
        Err(e) => panic!("Expected false, got {:?}", e),
    }
    assert_eq!(bool_val("tru"), Err(JSONParseError::NotFound));
}

#[test]
fn number_keeps_its_digits() {
    match parse("-12.50e+3") {
        Ok(JSONValue::Number(n)) => {
            assert!(n.negative);
            assert_eq!(n.integer, "12");
            assert_eq!(n.fraction, "50");
            assert_eq!(n.exponent, 3);
        }
        other => panic!("Expected a number, got {:?}", other),
    }
}

#[test]
fn exponent_beyond_i64_is_an_error() {
    assert_eq!(parse("1e99999999999999999999"), Err(JSONParseError::Error(0)));
}

#[test]
fn error_positions_count_bytes() {
    // The text after the value starts at byte 5: "true" and a space.
    assert_eq!(parse("true x"), Err(JSONParseError::UnexpectedChar(5)));
    // After a two-byte character the position counts both bytes.
    assert_eq!(parse("\"\u{e9}\" x"), Err(JSONParseError::UnexpectedChar(5)));
    // An unclosed string reports the bytes after its opening quote.
    assert_eq!(parse("\"ab"), Err(JSONParseError::MissingClosing(2)));
    // An unclosed array reports the bytes left where the closing bracket should be.
    assert_eq!(parse("[1, 2"), Err(JSONParseError::MissingClosing(0)));
    // An invalid escape reports the bytes read after the opening quote, up to it.
    assert_eq!(parse(r#""ab\x""#), Err(JSONParseError::UnexpectedChar(3)));
}

#[test]
fn missing_colon_reports_bytes_left() {
    assert_eq!(parse(r#"{"b": 2, "a" 1}"#), Err(JSONParseError::UnexpectedChar(2)));
}

#[test]
fn unreadable_first_member_leaves_object_unclosed() {
    assert_eq!(parse(r#"{"a" 1}"#), Err(JSONParseError::MissingClosing(6)));
}

#[test]
fn surrogate_escape_is_rejected() {
    match parse(r#""\ud800""#) {
        Err(JSONParseError::UnexpectedChar(_)) => {}
        other => panic!("Expected UnexpectedChar, got {:?}", other),
    }
}

#[test]
fn unicode_escape_reads_character() {
    match parse(r#""\u00e9\u4e2d""#) {
        Ok(JSONValue::String(s)) => assert_eq!(s, "\u{e9}\u{4e2d}"),
        other => panic!("Expected a string, got {:?}", other),
    }
}

#[test]
fn duplicate_key_keeps_last_value_in_first_place() {
    match parse(r#"{"a": 1, "b": 2, "a": 3}"#) {
        Ok(JSONValue::Object(members)) => {
            assert_eq!(members.len(), 2);
            assert_eq!(members[0].0, "a");
            assert_eq!(plain(&members[0].1), V::Number(3.0));
            assert_eq!(members[1].0, "b");
        }
        other => panic!("Expected an object, got {:?}", other),
    }
}

#[test]
fn empty_input_is_not_found() {
    assert_eq!(parse(""), Err(JSONParseError::NotFound));
    assert_eq!(parse("   "), Err(JSONParseError::NotFound));
}

#[test]
fn nested_arrays_and_objects() {
    let expected = V::Array(vec![
        V::Array(vec![]),
        V::Object(HashMap::new()),
        V::Array(vec![V::Null, V::True]),
    ]);
    assert_eq!(parse_plain("[[], {}, [null, true]]"), Ok(expected));
}

#[test]
fn skipping_whitespace_twice_changes_nothing() {
    let once = skip_whitespace("\n\t  {\"a\": 1}");
    assert_eq!(once, "{\"a\": 1}");
    assert_eq!(skip_whitespace(once), once);
}

#[test]
fn surrounding_whitespace_leaves_the_value_unchanged() {
    let text = r#"[1, {"a": null, "b": "x y"}, true]"#;
    let value = parse(text).unwrap();
    for (before, after) in [(" ", ""), ("\n\t", " \r\n"), ("", "\u{c}  "), ("   ", "\t")] {
        assert_eq!(parse(&format!("{}{}{}", before, text, after)).unwrap(), value);
    }
    assert_eq!(parse(" \n\"s\" \t").unwrap(), JSONValue::String("s".to_string()));
}
