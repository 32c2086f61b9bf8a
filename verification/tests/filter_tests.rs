use lib::filter::{parse_filter_expression, FilterSegment};
use lib::json_parser::{parse, JSONValue};
use lib::json_value_filter::apply_filter_to_value;

fn segments(expr: &str) -> Vec<FilterSegment> {
    match parse_filter_expression(expr) {
        Ok(f) => f.segments,
        Err(e) => panic!("Expected a filter for {}, got {}", expr, e),
    }
}

fn error(expr: &str) -> String {
    match parse_filter_expression(expr) {
        Ok(f) => panic!("Expected an error for {}, got {:?}", expr, f.segments),
        Err(e) => e,
    }
}

fn select(json: &str, expr: &str) -> JSONValue {
    let value = parse(json).unwrap();
    let filter = parse_filter_expression(expr).unwrap();
    apply_filter_to_value(&value, &filter).unwrap()
}

#[test]
fn identity_filters() {
    assert_eq!(segments("."), vec![FilterSegment::Identity]);
    assert_eq!(segments(""), vec![FilterSegment::Identity]);
}

#[test]
fn field_and_index_filters() {
    assert_eq!(segments(".name"), vec![FilterSegment::Field("name".to_string())]);
    assert_eq!(
        segments(".a.b"),
        vec![FilterSegment::Field("a".to_string()), FilterSegment::Field("b".to_string())]
    );
    assert_eq!(
        segments(".tags[1]"),
        vec![FilterSegment::Field("tags".to_string()), FilterSegment::Index(1)]
    );
    assert_eq!(segments(".[2]"), vec![FilterSegment::Index(2)]);
    assert_eq!(
        segments(".a[0].b"),
        vec![
            FilterSegment::Field("a".to_string()),
            FilterSegment::Index(0),
            FilterSegment::Field("b".to_string())
        ]
    );
}

#[test]
fn index_between_first_bracket_and_last_bracket() {
    assert_eq!(segments(".[+7]"), vec![FilterSegment::Index(7)]);
    assert_eq!(
        segments(".a[0]b"),
        vec![FilterSegment::Field("a".to_string()), FilterSegment::Index(0)]
    );
    assert_eq!(segments(".a]"), vec![FilterSegment::Field("a]".to_string())]);
}

#[test]
fn filter_errors() {
    assert_eq!(error("name"), "Filter expression must start with '.' (or be just '.')");
    assert_eq!(error(".."), "Invalid empty filter part in expression: ..");
    assert_eq!(error(".a."), "Invalid empty filter part in expression: .a.");
    assert_eq!(error(".a["), "Missing closing bracket in part: a[");
    assert_eq!(error(".a[]"), "Malformed array index in part: a[]");
    assert_eq!(error(".a[x]"), "Invalid array index: x");
    assert_eq!(error(".a[1][2]"), "Invalid array index: 1][2");
    assert_eq!(error(".[-1]"), "Invalid array index: -1");
    assert_eq!(error(".[99999999999999999999999]"), "Invalid array index: 99999999999999999999999");
}

#[test]
fn identity_keeps_the_input() {
    let json = r#"{"a": [1, {"b": null}], "c": "x"}"#;
    assert_eq!(select(json, "."), parse(json).unwrap());
}

#[test]
fn fields_and_indexes_select() {
    let json = r#"{"name": "Alice", "tags": ["x", "y"], "person": {"age": 30}}"#;
    assert_eq!(select(json, ".name"), JSONValue::String("Alice".to_string()));
    assert_eq!(select(json, ".tags[1]"), JSONValue::String("y".to_string()));
    assert_eq!(select(json, ".person.age"), parse("30").unwrap());
}

#[test]
fn missing_values_select_null() {
    let json = r#"{"name": "test", "tags": ["x"], "person.age": "twenty"}"#;
    assert_eq!(select(json, ".missing"), JSONValue::Null);
    assert_eq!(select(json, ".tags[5]"), JSONValue::Null);
    assert_eq!(select(json, ".name.first"), JSONValue::Null);
    assert_eq!(select(json, ".name[0]"), JSONValue::Null);
    assert_eq!(select(json, ".person.age"), JSONValue::Null);
    assert_eq!(select(json, ".missing.deeper[3]"), JSONValue::Null);
    assert_eq!(select("[1, 2]", ".a"), JSONValue::Null);
}

#[test]
fn filters_compose() {
    let json = r#"{"a": {"b": [10, {"c": true}]}}"#;
    let inner = select(json, ".a.b");
    let filter = parse_filter_expression(".[1].c").unwrap();
    assert_eq!(apply_filter_to_value(&inner, &filter).unwrap(), select(json, ".a.b[1].c"));
    assert_eq!(select(json, ".a.b[1].c"), JSONValue::True);
}

#[test]
fn field_of_duplicated_key_is_last_value() {
    assert_eq!(select(r#"{"k": 1, "k": "last"}"#, ".k"), JSONValue::String("last".to_string()));
}
