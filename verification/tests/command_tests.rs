use lib::cli::{parse_arguments, CliCommand, InputSource};
use lib::filter::parse_filter_expression;
use lib::json_parser::{parse, JsonNumber};
use lib::json_printer::{format_json_value, OutputItem, PrintOptions};
use lib::json_value_filter::apply_filter_to_value;

/// The path under which a test's input file is given on the command line.
const FILE_PATH: &str = "/tmp/jq-test/test.json";

struct Outcome {
    success: bool,
    stdout: String,
    stderr: String,
}

fn number_value(n: &JsonNumber) -> f64 {
    let mut v: f64 = n.integer.parse::<f64>().unwrap();
    if !n.fraction.is_empty() {
        v += format!("0.{}", n.fraction).parse::<f64>().unwrap();
    }
    if n.negative {
        v *= -1.0;
    }
    if n.exponent != 0 {
        v *= 10_f64.powf(n.exponent as f64);
    }
    v
}

fn failure(stderr: String) -> Outcome {
    Outcome { success: false, stdout: String::new(), stderr }
}

/// Runs the command the way the program does, with `file` as the contents of the file
/// at `FILE_PATH` and `stdin` as standard input.
fn jq(args: &[&str], file: Option<&str>, stdin: Option<&str>) -> Outcome {
    let mut argv = vec!["jq".to_string()];
    for a in args {
        argv.push(a.to_string());
    }
    let run = match parse_arguments(&argv) {
        Ok(CliCommand::Run(run)) => run,
        Ok(_) => return Outcome { success: true, stdout: String::new(), stderr: String::new() },
        Err(e) => return failure(format!("Error: {}", e)),
    };
    let first_is_file = file.is_some() && run.first_arg.as_deref() == Some(FILE_PATH);
    let input_is_file = file.is_some() && run.input_arg.as_deref() == Some(FILE_PATH);
    let options = match run.into_options(first_is_file, input_is_file) {
        Ok(o) => o,
        Err(e) => return failure(format!("Error: {}", e)),
    };
    let filter = match parse_filter_expression(&options.filter_expression) {
        Ok(f) => f,
        Err(e) => return failure(format!("Error parsing filter expression: {}", e)),
    };
    let text = match options.input_source {
        InputSource::File(_) => file.unwrap().to_string(),
        InputSource::String(s) => s,
        InputSource::StdIn => stdin.unwrap_or("").to_string(),
    };
    let print_options = PrintOptions {
        compact: options.compact_output,
        sort_keys: options.sort_keys,
        use_tabs: options.use_tabs,
    };
    match parse(&text) {
        Ok(value) => {
            let selected = apply_filter_to_value(&value, &filter).unwrap();
            let mut stdout = String::new();
            for item in format_json_value(&selected, 0, &print_options) {
                match item {
                    OutputItem::Char(c) => stdout.push(c),
                    OutputItem::Number(n) => stdout.push_str(&format!("{}", number_value(&n))),
                }
            }
            Outcome { success: true, stdout, stderr: String::new() }
        }
        Err(e) => failure(format!("Failed to parse JSON: {:?}", e)),
    }
}

fn json_matches(output: &str, pairs: &[(&str, &str)]) -> bool {
    let mut ok = output.starts_with("{") && output.ends_with("}\n");
    for (key, value) in pairs {
        ok = ok && output.contains(&format!("\"{}\"", key)) && output.contains(&format!("\"{}\"", value));
    }
    ok
}

#[test]
fn test_pretty_print_default() {
    let out = jq(&[".", FILE_PATH], Some(r#"{"name": "Alice", "age": "30"}"#), None);
    assert!(out.success);
    assert!(json_matches(&out.stdout, &[("name", "Alice"), ("age", "30")]));
}

#[test]
fn test_compact_output() {
    let out = jq(&["-c", ".", FILE_PATH], Some(r#"{"name": "Alice", "age": "30"}"#), None);
    assert!(out.success);
    let output = out.stdout.trim();
    assert!(
        output.contains(r#""name":"Alice"#)
            && output.contains(r#""age":"30"#)
            && output.starts_with("{")
            && output.ends_with("}")
    );
}

#[test]
fn test_tab_indentation() {
    let out = jq(&["--tab", ".", FILE_PATH], Some(r#"{"name": "Alice", "age": "30"}"#), None);
    assert!(out.success);
    assert!(out.stdout.contains("\t"));
}

#[test]
fn test_compact_output_and_tab_conflict() {
    let out = jq(&["-c", "--tab", ".", FILE_PATH], Some(r#"{"name": "Alice", "age": "30"}"#), None);
    assert!(out.success);
    let output = out.stdout.trim();
    assert!(
        output.contains(r#""name":"Alice"#)
            && output.contains(r#""age":"30"#)
            && output.starts_with("{")
            && output.ends_with("}")
    );
}

#[test]
fn test_invalid_option() {
    let out = jq(&["--invalid-option", ".", FILE_PATH], Some(r#"{"name": "test", "value": "123"}"#), None);
    assert!(!out.success);
    assert!(out.stderr.contains("Unknown option"));
}

#[test]
fn test_large_json_file() {
    let large_json = r#"{
        "users": [
            {"id": 1, "name": "Alice", "details": {"age": 30, "city": "New York", "hobbies": ["reading", "hiking"]}},
            {"id": 2, "name": "Bob", "details": {"age": 25, "city": "London", "hobbies": ["gaming", "cooking"]}},
            {"id": 3, "name": "Charlie", "details": {"age": 35, "city": "Paris", "hobbies": ["painting", "music"]}}
        ],
        "metadata": {
            "total_users": 3,
            "last_updated": "2024-03-20",
            "settings": {
                "visibility": "public",
                "permissions": ["read", "write"],
                "flags": {
                    "active": true,
                    "verified": true
                }
            }
        }
    }"#;
    let out = jq(&[".", FILE_PATH], Some(large_json), None);
    assert!(out.success);
    let output = out.stdout;
    assert!(
        output.contains(r#""users""#)
            && output.contains(r#""metadata""#)
            && output.contains(r#""Alice""#)
            && output.contains(r#""total_users": 3"#)
            && output.contains(r#""permissions""#)
            && output.contains(r#""flags""#)
    );
}

#[test]
fn test_combined_short_options() {
    let out = jq(&["-cS", ".", FILE_PATH], Some(r#"{"name": "Alice", "age": "30"}"#), None);
    assert!(out.success);
    let output = out.stdout.trim();
    assert!(
        output.contains(r#""name":"Alice"#)
            && output.contains(r#""age":"30"#)
            && output == r#"{"age":"30","name":"Alice"}"#
    );
}

#[test]
fn test_combined_short_options_reversed() {
    let out = jq(&["-Sc", ".", FILE_PATH], Some(r#"{"name": "Alice", "age": "30"}"#), None);
    assert!(out.success);
    assert_eq!(out.stdout.trim(), r#"{"age":"30","name":"Alice"}"#);
}

#[test]
fn test_invalid_combined_option() {
    let out = jq(&["-cX", ".", FILE_PATH], Some(r#"{"name": "test", "value": "123"}"#), None);
    assert!(!out.success);
    assert!(out.stderr.contains("Unknown option: -X"));
}

#[test]
fn test_field_contains_escape_characters() {
    let file = r#"{
         "stdout": "rustc 1.85.0 (4d91de4e4 2025-02-17)\nbinary: rustc\ncommit-hash: 4d91de4e48198da2e33413efdcd9cd2cc0c4668\n"
       }"#;
    let out = jq(&["-c", ".", FILE_PATH], Some(file), None);
    assert!(out.success);
    let output = out.stdout.trim();
    println!("output: {}", output);
    assert!(
        output
            == r#"{"stdout":"rustc 1.85.0 (4d91de4e4 2025-02-17)\nbinary: rustc\ncommit-hash: 4d91de4e48198da2e33413efdcd9cd2cc0c4668\n"}"#
    );
}

#[test]
fn test_basic_operations() {
    let out = jq(&[".", FILE_PATH], Some(r#"{"name": "test", "value": "123"}"#), None);
    assert!(out.success);
    assert!(json_matches(&out.stdout, &[("name", "test"), ("value", "123")]));

    let input_json = r#"{"name": "test", "value": "123"}"#;
    let out = jq(&["."], None, Some(input_json));
    assert!(out.success);
    assert!(json_matches(&out.stdout, &[("name", "test"), ("value", "123")]));
}

#[test]
fn test_filter_expressions() {
    let out = jq(&[".name"], None, Some(r#"{"name": "jq"}"#));
    assert!(out.success && out.stdout.contains("jq"));

    let out = jq(&[".name"], None, Some(r#"{"name": "Alice", "age": 30}"#));
    assert!(out.success && out.stdout.contains("Alice"));

    let out = jq(&[".age"], None, Some(r#"{"age": "twenty"}"#));
    assert!(out.success && out.stdout.contains("twenty"));

    let out = jq(&[".person.age"], None, Some(r#"{"person.age": "twenty"}"#));
    assert!(out.success && out.stdout.contains("null"));

    let out = jq(&[".missing"], None, Some(r#"{"name": "test"}"#));
    assert!(out.success && out.stdout.contains("null"));

    let out = jq(&[".missing"], None, Some("{}"));
    assert!(out.success && out.stdout.contains("null"));

    let out = jq(&["invalid"], None, Some("{}"));
    assert!(!out.success && out.stderr.contains("Error parsing filter expression"));

    let out = jq(&["."], None, Some("invalid json"));
    assert!(!out.success && out.stderr.contains("Failed to parse JSON"));
}

#[test]
fn test_pretty_print() {
    let input_json = r#"{"name": "test", "value": "123"}"#;
    let out = jq(&["."], None, Some(input_json));
    assert!(out.success);
    assert!(json_matches(&out.stdout, &[("name", "test"), ("value", "123")]));

    let out = jq(&["-c", "."], None, Some(r#"{"status": "ok"}"#));
    assert!(out.success);
    let output = out.stdout.trim();
    assert!(output.contains(r#""status":"ok"#) && output.starts_with("{") && output.ends_with("}"));

    let out = jq(&[".", FILE_PATH], Some(r#"{"source": "file"}"#), None);
    assert!(out.success);
    assert!(json_matches(&out.stdout, &[("source", "file")]));

    let out = jq(&["--tab", ".", FILE_PATH], Some(r#"{"source": "file"}"#), None);
    assert!(out.success);
    assert!(out.stdout.contains("\t"));
}

#[test]
fn input_argument_that_names_no_file_is_the_json_text() {
    let out = jq(&["-c", ".a", r#"{"a": [1, 2]}"#], None, None);
    assert!(out.success);
    assert_eq!(out.stdout, "[1,2]\n");
}

#[test]
fn file_given_without_filter_is_printed_whole() {
    let out = jq(&["-c", FILE_PATH], Some(r#"{"b": [1, true]}"#), None);
    assert!(out.success);
    assert_eq!(out.stdout, "{\"b\":[1,true]}\n");
}

#[test]
fn argument_that_is_neither_filter_nor_file_is_an_error() {
    let out = jq(&["-c", "bar.json"], None, Some("{}"));
    assert!(!out.success);
    assert!(out.stderr.contains("Error parsing filter expression"));
}
