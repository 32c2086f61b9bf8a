use lib::json_parser::{JSONValue, JsonNumber};
use lib::parser::{bool, elements, null, number, string, ParseError};

fn num(negative: bool, integer: &str, fraction: &str, exponent: i64) -> JSONValue {
    JSONValue::Number(JsonNumber {
        negative,
        integer: integer.to_string(),
        fraction: fraction.to_string(),
        exponent,
    })
}

#[test]
fn reads_null() {
    let t = null("null rest").unwrap();
    assert_eq!(*t.value(), JSONValue::Null);
    assert_eq!(t.rest(), " rest");
    assert_eq!(null("nul").err(), Some(ParseError::NotFound));
}

#[test]
fn reads_booleans() {
    let t = bool("true,").unwrap();
    assert_eq!(*t.value(), JSONValue::True);
    assert_eq!(t.rest(), ",");
    let f = bool("false").unwrap();
    assert_eq!(*f.value(), JSONValue::False);
    assert_eq!(f.rest(), "");
    assert_eq!(bool("x").err(), Some(ParseError::NotFound));
}

#[test]
fn string_escapes_stand_for_their_letter() {
    let t = string(r#""a\nb\/c\u0041" x"#).unwrap();
    assert_eq!(*t.value(), JSONValue::String("anb/cu0041".to_string()));
    assert_eq!(t.rest(), " x");
}

#[test]
fn string_errors() {
    assert_eq!(string("x").err(), Some(ParseError::NotFound));
    assert_eq!(string(r#""ab"#).err(), Some(ParseError::MissingClosing(2)));
    assert_eq!(string(r#""\q123""#).err(), Some(ParseError::UnexpectedChar(4)));
    assert_eq!(string(r#""\f""#).err(), Some(ParseError::UnexpectedChar(1)));
}

#[test]
fn reads_numbers() {
    let t = number("-12.5e1x").unwrap();
    assert_eq!(*t.value(), num(true, "12", "5", 1));
    assert_eq!(t.rest(), "x");
    let z = number("-0.5").unwrap();
    assert_eq!(*z.value(), num(false, "0", "5", 0));
    let lead = number("012").unwrap();
    assert_eq!(*lead.value(), num(false, "0", "", 0));
    assert_eq!(lead.rest(), "12");
    let dot = number("1.").unwrap();
    assert_eq!(*dot.value(), num(false, "1", "", 0));
    assert_eq!(dot.rest(), ".");
    let e = number("7e").unwrap();
    assert_eq!(*e.value(), num(false, "7", "", 0));
    assert_eq!(e.rest(), "e");
    let big = number("9223372036854775807E-007").unwrap();
    assert_eq!(*big.value(), num(false, "9223372036854775807", "", -7));
    assert_eq!(number("-").err(), Some(ParseError::NotFound));
    assert_eq!(number("abc").err(), Some(ParseError::NotFound));
}

#[test]
fn reads_elements() {
    let (rest, values) = elements("1, \"a\" , [true], {\"k\": null} ]").unwrap();
    assert_eq!(rest, "]");
    assert_eq!(values.len(), 4);
    assert_eq!(values[0], num(false, "1", "", 0));
    assert_eq!(values[1], JSONValue::String("a".to_string()));
    assert_eq!(values[2], JSONValue::Array(vec![JSONValue::True]));
    assert_eq!(
        values[3],
        JSONValue::Object(vec![("k".to_string(), JSONValue::Null)])
    );
}

#[test]
fn element_errors() {
    assert_eq!(elements("").err(), Some(ParseError::NotFound));
    assert_eq!(elements("1,").err(), Some(ParseError::NotFound));
    assert_eq!(elements("\u{c}1").err(), Some(ParseError::NotFound));
    assert_eq!(elements("[1, 2").err(), Some(ParseError::MissingClosing(4)));
    assert_eq!(elements("{\"a\" 1}").err(), Some(ParseError::UnexpectedChar(2)));
    assert_eq!(elements("{\"a\": 1").err(), Some(ParseError::MissingClosing(6)));
}

#[test]
fn object_keeps_last_value_of_a_key() {
    let (rest, values) = elements(r#"{"a": 1, "b": [], "a": 2}"#).unwrap();
    assert_eq!(rest, "");
    assert_eq!(
        values[0],
        JSONValue::Object(vec![
            ("a".to_string(), num(false, "2", "", 0)),
            ("b".to_string(), JSONValue::Array(vec![]))
        ])
    );
}

#[test]
fn empty_containers() {
    let (_, values) = elements("[ ], { }").unwrap();
    assert_eq!(values, vec![JSONValue::Array(vec![]), JSONValue::Object(vec![])]);
}
