use just_bash_rs::argparse::{format_help, parse_args, CommandMeta, FlagMeta, PositionalMeta, StdinBehavior};

fn test_meta() -> CommandMeta {
    CommandMeta {
        name: "test",
        synopsis: "test [-la] [-n NUM] [path...]",
        description: "A test command",
        details: "",
        flags: &[
            FlagMeta {
                short: 'l',
                long: None,
                takes_value: false,
                value_hint: "",
                description: "Long format",
            },
            FlagMeta {
                short: 'a',
                long: Some("all"),
                takes_value: false,
                value_hint: "",
                description: "Show all",
            },
            FlagMeta {
                short: 'n',
                long: Some("number"),
                takes_value: true,
                value_hint: "NUM",
                description: "Set number",
            },
        ],
        positional: &[PositionalMeta {
            name: "path",
            required: false,
            variadic: true,
            description: "Paths to process",
        }],
        stdin: StdinBehavior::Never,
    }
}

fn s(s: &str) -> String {
    s.to_string()
}

#[test]
fn test_boolean_flags() {
    let meta = test_meta();
    let args = vec![s("-l"), s("-a"), s("/foo")];
    let parsed = parse_args(&meta, &args);
    assert!(parsed.has_flag('l'));
    assert!(parsed.has_flag('a'));
    assert_eq!(parsed.positional, vec!["/foo"]);
    assert!(parsed.errors.is_empty());
}

#[test]
fn test_combined_flags() {
    let meta = test_meta();
    let args = vec![s("-la"), s("/foo")];
    let parsed = parse_args(&meta, &args);
    assert!(parsed.has_flag('l'));
    assert!(parsed.has_flag('a'));
    assert_eq!(parsed.positional, vec!["/foo"]);
}

#[test]
fn test_value_flag_attached() {
    let meta = test_meta();
    let args = vec![s("-n42")];
    let parsed = parse_args(&meta, &args);
    assert_eq!(parsed.flag_value('n'), Some("42"));
}

#[test]
fn test_value_flag_separate() {
    let meta = test_meta();
    let args = vec![s("-n"), s("42")];
    let parsed = parse_args(&meta, &args);
    assert_eq!(parsed.flag_value('n'), Some("42"));
}

#[test]
fn test_long_flag() {
    let meta = test_meta();
    let args = vec![s("-all")];
    let parsed = parse_args(&meta, &args);
    assert!(parsed.has_flag('a'));
}

#[test]
fn test_long_value_flag() {
    let meta = test_meta();
    let args = vec![s("-number"), s("42")];
    let parsed = parse_args(&meta, &args);
    assert_eq!(parsed.flag_value('n'), Some("42"));
}

#[test]
fn test_numeric_shorthand() {
    let meta = test_meta();
    let args = vec![s("-10")];
    let parsed = parse_args(&meta, &args);
    assert_eq!(parsed.flag_value('n'), Some("10"));
}

#[test]
fn test_unknown_flag() {
    let meta = test_meta();
    let args = vec![s("-x")];
    let parsed = parse_args(&meta, &args);
    assert!(!parsed.errors.is_empty());
    assert!(parsed.errors[0].contains("invalid option"));
}

#[test]
fn test_stop_parsing() {
    let meta = test_meta();
    let args = vec![s("-l"), s("--"), s("-a"), s("file")];
    let parsed = parse_args(&meta, &args);
    assert!(parsed.has_flag('l'));
    assert!(!parsed.has_flag('a'));
    assert_eq!(parsed.positional, vec!["-a", "file"]);
}

#[test]
fn test_missing_value() {
    let meta = test_meta();
    let args = vec![s("-n")];
    let parsed = parse_args(&meta, &args);
    assert!(!parsed.errors.is_empty());
    assert!(parsed.errors[0].contains("requires a value"));
}

#[test]
fn test_format_help() {
    let meta = test_meta();
    let help = format_help(&meta);
    assert!(help.contains("Usage: test"));
    assert!(help.contains("-l"));
    assert!(help.contains("-a"));
    assert!(help.contains("-n NUM"));
    assert!(help.contains("Long format"));
}
