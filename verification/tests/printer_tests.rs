use lib::json_parser::{parse, JsonNumber};
use lib::json_printer::utils::print_string;
use lib::json_printer::{format_json_value, OutputItem, PrintOptions};

fn number_value(n: &JsonNumber) -> f64 {
    let mut v: f64 = n.integer.parse::<f64>().unwrap();
    if !n.fraction.is_empty() {
        v += format!("0.{}", n.fraction).parse::<f64>().unwrap();
    }
    if n.negative {
        v *= -1.0;
    }
    if n.exponent != 0 {
        v *= 10_f64.powf(n.exponent as f64);
    }
    v
}

fn render(items: &[OutputItem]) -> String {
    let mut s = String::new();
    for item in items {
        match item {
            OutputItem::Char(c) => s.push(*c),
            OutputItem::Number(n) => s.push_str(&format!("{}", number_value(n))),
        }
    }
    s
}

fn print(json: &str, compact: bool, sort_keys: bool, use_tabs: bool) -> String {
    let value = parse(json).unwrap();
    let options = PrintOptions { compact, sort_keys, use_tabs };
    render(&format_json_value(&value, 0, &options))
}

#[test]
fn compact_keeps_member_order() {
    assert_eq!(
        print(r#"{"name": "Alice", "age": "30"}"#, true, false, false),
        "{\"name\":\"Alice\",\"age\":\"30\"}\n"
    );
}

#[test]
fn compact_sorted_keys() {
    assert_eq!(
        print(r#"{"name": "Alice", "age": "30"}"#, true, true, false),
        "{\"age\":\"30\",\"name\":\"Alice\"}\n"
    );
}

#[test]
fn sorted_keys_compare_by_characters() {
    assert_eq!(
        print(r#"{"b": 1, "B": 2, "ab": 3, "a": 4, "": 5}"#, true, true, false),
        "{\"\":5,\"B\":2,\"a\":4,\"ab\":3,\"b\":1}\n"
    );
}

#[test]
fn compact_nested_values() {
    assert_eq!(
        print(r#" [1, [], {}, [null, true, false], {"x": -0.5}] "#, true, false, false),
        "[1,[],{},[null,true,false],{\"x\":-0.5}]\n"
    );
}

#[test]
fn pretty_with_spaces() {
    let expected = "{\n  \"a\": [\n    1,\n    2\n  ],\n  \"b\": {},\n  \"c\": []\n}\n";
    assert_eq!(print(r#"{"a": [1, 2], "b": {}, "c": []}"#, false, false, false), expected);
}

#[test]
fn pretty_with_tabs() {
    let expected = "{\n\t\"a\": {\n\t\t\"b\": \"x\"\n\t}\n}\n";
    assert_eq!(print(r#"{"a": {"b": "x"}}"#, false, false, true), expected);
}

#[test]
fn pretty_sorted_keys() {
    let expected = "{\n  \"age\": \"30\",\n  \"name\": \"Alice\"\n}\n";
    assert_eq!(print(r#"{"name": "Alice", "age": "30"}"#, false, true, false), expected);
}

#[test]
fn scalars_print_alone() {
    assert_eq!(print("null", false, false, false), "null\n");
    assert_eq!(print("true", true, false, false), "true\n");
    assert_eq!(print("1.5e2", true, false, false), "150\n");
    assert_eq!(print("\"hi\"", false, false, false), "\"hi\"\n");
}

#[test]
fn nested_levels_print_without_final_line_break() {
    let value = parse("[1]").unwrap();
    let options = PrintOptions { compact: false, sort_keys: false, use_tabs: false };
    assert_eq!(render(&format_json_value(&value, 1, &options)), "[\n    1\n  ]");
}

#[test]
fn string_values_are_escaped() {
    let json = r#"{
         "stdout": "rustc 1.85.0 (4d91de4e4 2025-02-17)\nbinary: rustc\ncommit-hash: 4d91de4e48198da2e33413efdcd9cd2cc0c4668\n"
       }"#;
    assert_eq!(
        print(json, true, false, false).trim(),
        r#"{"stdout":"rustc 1.85.0 (4d91de4e4 2025-02-17)\nbinary: rustc\ncommit-hash: 4d91de4e48198da2e33413efdcd9cd2cc0c4668\n"}"#
    );
}

#[test]
fn print_string_escapes() {
    assert_eq!(print_string("plain"), "\"plain\"");
    assert_eq!(print_string(""), "\"\"");
    assert_eq!(
        print_string("a\"b\\c\n\t\r\u{8}\u{c}/\u{1}\u{e9}"),
        "\"a\\\"b\\\\c\\n\\t\\r\\b\\f/\u{1}\u{e9}\""
    );
}

#[test]
fn printed_string_reads_back() {
    let s = "quote \" back \\ nl \n tab \t cr \r bs \u{8} ff \u{c} other \u{1f} é";
    match parse(&print_string(s)) {
        Ok(lib::json_parser::JSONValue::String(t)) => assert_eq!(t, s),
        other => panic!("Expected the same string, got {:?}", other),
    }
}

#[test]
fn printed_values_read_back() {
    let json = r#"{"a": [true, false, null, [], {}], "b": {"c": "x\ty\"z"}, "d": [[["deep"]]], "e": "\\"}"#;
    let value = parse(json).unwrap();
    for compact in [true, false] {
        for use_tabs in [true, false] {
            for indent in [0usize, 3] {
                let options = PrintOptions { compact, sort_keys: false, use_tabs };
                let text = render(&format_json_value(&value, indent, &options));
                assert_eq!(parse(&text).unwrap(), value);
            }
        }
    }
}

#[test]
fn sorted_output_lists_each_member_once_in_key_order() {
    let text = print(r#"{"m": 1, "z": 2, "a": 3}"#, false, true, false);
    assert_eq!(text, "{\n  \"a\": 3,\n  \"m\": 1,\n  \"z\": 2\n}\n");
}

#[test]
fn sorted_output_reads_back_with_members_in_key_order() {
    let value = parse(r#"{"z": {"y": true, "b": []}, "a": "x"}"#).unwrap();
    let options = PrintOptions { compact: false, sort_keys: true, use_tabs: true };
    let text = render(&format_json_value(&value, 0, &options));
    assert_eq!(parse(&text).unwrap(), parse(r#"{"a": "x", "z": {"b": [], "y": true}}"#).unwrap());
}

#[test]
fn printed_string_followed_by_text_reads_back_up_to_its_quote() {
    let s = "a \"quoted\" \\ word\n";
    let text = format!("[{}, {}]", print_string(s), print_string("next"));
    let expected = parse(r#"["a \"quoted\" \\ word\n", "next"]"#).unwrap();
    assert_eq!(parse(&text).unwrap(), expected);
}

#[test]
fn pretty_text_without_whitespace_is_compact_text() {
    let json = r#"{"name": "Alice", "list": [1, 2.5, {"k": null}], "empty": {}, "none": [], "flag": true}"#;
    for sort_keys in [false, true] {
        for use_tabs in [false, true] {
            let pretty = print(json, false, sort_keys, use_tabs);
            let compact = print(json, true, sort_keys, use_tabs);
            let stripped: String = pretty.chars().filter(|c| !c.is_whitespace()).collect();
            let compact_stripped: String = compact.chars().filter(|c| !c.is_whitespace()).collect();
            assert_eq!(stripped, compact_stripped);
            assert_eq!(compact.trim_end(), compact_stripped);
        }
    }
}

#[test]
fn keys_are_escaped_like_string_values() {
    assert_eq!(
        print(r#"{"a\"b": 1, "c\\d\n": 2}"#, true, false, false),
        "{\"a\\\"b\":1,\"c\\\\d\\n\":2}\n"
    );
    assert_eq!(
        print(r#"{"a\"b": "x"}"#, false, false, false),
        "{\n  \"a\\\"b\": \"x\"\n}\n"
    );
}

#[test]
fn objects_with_different_keys_print_differently() {
    let one = print(r#"{"a\":null,\"b": null}"#, true, false, false);
    let two = print(r#"{"a": null, "b": null}"#, true, false, false);
    assert_ne!(one, two);
    assert_eq!(one, "{\"a\\\":null,\\\"b\":null}\n");
}

#[test]
fn keys_with_quotes_and_backslashes_read_back() {
    let json = r#"{"\"": true, "a\\b": {"q\"\n": [null, "v"]}, "": false}"#;
    let value = parse(json).unwrap();
    for compact in [true, false] {
        for sort_keys in [false, true] {
            let options = PrintOptions { compact, sort_keys, use_tabs: false };
            let text = render(&format_json_value(&value, 0, &options));
            let back = parse(&text).unwrap();
            if sort_keys {
                let sorted = r#"{"": false, "\"": true, "a\\b": {"q\"\n": [null, "v"]}}"#;
                assert_eq!(back, parse(sorted).unwrap());
            } else {
                assert_eq!(back, value);
            }
        }
    }
}
