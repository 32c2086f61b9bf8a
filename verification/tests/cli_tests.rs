use lib::cli::{parse_arguments, CliArguments, CliCommand, InputSource};

fn args(list: &[&str]) -> Vec<String> {
    let mut v = vec!["jq".to_string()];
    for a in list {
        v.push(a.to_string());
    }
    v
}

fn run(list: &[&str]) -> CliArguments {
    match parse_arguments(&args(list)) {
        Ok(CliCommand::Run(a)) => a,
        Ok(CliCommand::Help) => panic!("Expected a run, got help"),
        Ok(CliCommand::Version) => panic!("Expected a run, got version"),
        Err(e) => panic!("Expected a run, got {}", e),
    }
}

fn error(list: &[&str]) -> String {
    match parse_arguments(&args(list)) {
        Err(e) => e,
        Ok(_) => panic!("Expected an error"),
    }
}

#[test]
fn no_arguments_reads_stdin_with_identity() {
    let a = run(&[]);
    assert_eq!(a.first_arg, None);
    assert_eq!(a.input_arg, None);
    assert!(!a.compact_output && !a.sort_keys && !a.use_tabs);
    let o = a.into_options(false, false).unwrap();
    assert_eq!(o.filter_expression, ".");
    assert!(matches!(o.input_source, InputSource::StdIn));
}

#[test]
fn options_only_reads_stdin_with_identity() {
    let a = run(&["-c", "--tab"]);
    assert_eq!(a.first_arg, None);
    assert_eq!(a.input_arg, None);
    assert!(a.compact_output && !a.sort_keys && a.use_tabs);
    let o = a.into_options(true, true).unwrap();
    assert_eq!(o.filter_expression, ".");
    assert!(matches!(o.input_source, InputSource::StdIn));
}

#[test]
fn filter_and_input() {
    let a = run(&["-c", ".", "data.json"]);
    assert_eq!(a.first_arg, Some(".".to_string()));
    assert_eq!(a.input_arg, Some("data.json".to_string()));
    assert!(a.compact_output);
}

#[test]
fn combined_short_options() {
    let a = run(&["-cS", ".name"]);
    assert!(a.compact_output && a.sort_keys && !a.use_tabs);
    assert_eq!(a.first_arg, Some(".name".to_string()));
    let b = run(&["-Sc", "."]);
    assert!(b.compact_output && b.sort_keys);
    let c = run(&["-", "."]);
    assert!(!c.compact_output && !c.sort_keys);
}

#[test]
fn only_the_argument_after_the_filter_is_the_input() {
    let a = run(&[".", "in", "ignored"]);
    assert_eq!(a.input_arg, Some("in".to_string()));
}

#[test]
fn help_and_version() {
    assert!(matches!(parse_arguments(&args(&["--help"])), Ok(CliCommand::Help)));
    assert!(matches!(parse_arguments(&args(&["-c", "--version", "-X"])), Ok(CliCommand::Version)));
}

#[test]
fn unknown_options() {
    assert_eq!(error(&["--invalid-option", "."]), "Unknown option: --invalid-option");
    assert_eq!(error(&["-cX", "."]), "Unknown option: -X");
    assert_eq!(error(&["-X", "--help"]), "Unknown option: -X");
}

#[test]
fn invalid_filter_is_an_error() {
    let a = run(&["invalid", "{}"]);
    assert_eq!(
        a.into_options(false, false).err(),
        Some("Error parsing filter expression: Filter expression must start with '.' (or be just '.')".to_string())
    );
}

#[test]
fn file_as_only_argument_is_read_with_identity() {
    let o = run(&["-c", "bar.json"]).into_options(true, false).unwrap();
    assert_eq!(o.filter_expression, ".");
    assert!(matches!(o.input_source, InputSource::File(ref f) if f == "bar.json"));
    assert!(o.compact_output && !o.sort_keys && !o.use_tabs);
}

#[test]
fn filter_wins_over_file_of_the_same_name() {
    let o = run(&[".a", "x.json"]).into_options(true, true).unwrap();
    assert_eq!(o.filter_expression, ".a");
    assert!(matches!(o.input_source, InputSource::File(ref f) if f == "x.json"));
}

#[test]
fn input_source_from_file_check() {
    let o = run(&["-S", ".a", "x.json"]).into_options(false, true).unwrap();
    assert!(matches!(o.input_source, InputSource::File(ref f) if f == "x.json"));
    assert_eq!(o.filter_expression, ".a");
    assert!(o.sort_keys && !o.compact_output && !o.use_tabs);
    let o = run(&[".", "{\"a\": 1}"]).into_options(false, false).unwrap();
    assert!(matches!(o.input_source, InputSource::String(ref t) if t == "{\"a\": 1}"));
    let o = run(&["."]).into_options(false, true).unwrap();
    assert!(matches!(o.input_source, InputSource::StdIn));
}
