use just_bash_rs::env::Env;
use just_bash_rs::parser::{expand_variables, parse, tokenize, ParseError};

fn tokenize_str(input: &str) -> Result<Vec<String>, ParseError> {
    let cs: Vec<char> = input.chars().collect();
    tokenize(&cs).map(|ts| ts.into_iter().map(|t| t.into_iter().collect()).collect())
}

fn expand_str(input: &str, env: &Env) -> Result<String, ParseError> {
    let cs: Vec<char> = input.chars().collect();
    expand_variables(&cs, env).map(|t| t.into_iter().collect())
}

fn tok(input: &str) -> Vec<String> {
    tokenize_str(input).unwrap()
}

fn expand(input: &str, env: &Env) -> String {
    expand_str(input, env).unwrap()
}

#[test]
fn test_tokenize_simple() {
    assert_eq!(tok("hello world"), vec!["hello", "world"]);
}

#[test]
fn test_tokenize_quotes() {
    assert_eq!(tok("'hello world'"), vec!["hello world"]);
    assert_eq!(tok("\"hello world\""), vec!["hello world"]);
    assert_eq!(tok("echo 'hello world'"), vec!["echo", "hello world"]);
}

#[test]
fn test_tokenize_escape() {
    assert_eq!(tok(r"hello\ world"), vec!["hello world"]);
}

#[test]
fn test_tokenize_redirect() {
    assert_eq!(
        tok("echo hello > file.txt"),
        vec!["echo", "hello", ">", "file.txt"]
    );
    assert_eq!(
        tok("echo hello >> file.txt"),
        vec!["echo", "hello", ">>", "file.txt"]
    );
    assert_eq!(tok("cat < file.txt"), vec!["cat", "<", "file.txt"]);
}

#[test]
fn test_expand_variables() {
    let mut env = Env::new();
    env.set("FOO", "bar");
    assert_eq!(expand("$FOO", &env), "bar");
    assert_eq!(expand("${FOO}", &env), "bar");
    assert_eq!(expand("hello $FOO", &env), "hello bar");
    assert_eq!(expand("'$FOO'", &env), "$FOO"); // single quotes
    assert_eq!(expand("\"$FOO\"", &env), "bar"); // double quotes
}

#[test]
fn test_parse_simple() {
    let env = Env::new();
    let pipelines = parse("echo hello", &env).unwrap();
    assert_eq!(pipelines.len(), 1);
    assert_eq!(pipelines[0].commands[0].args, vec!["echo", "hello"]);
}

#[test]
fn test_parse_pipe() {
    let env = Env::new();
    let pipelines = parse("echo hello | grep h", &env).unwrap();
    assert_eq!(pipelines.len(), 1);
    assert_eq!(pipelines[0].commands.len(), 2);
    assert_eq!(pipelines[0].commands[0].args, vec!["echo", "hello"]);
    assert_eq!(pipelines[0].commands[1].args, vec!["grep", "h"]);
}

#[test]
fn test_parse_redirect() {
    let env = Env::new();
    let pipelines = parse("echo hello > output.txt", &env).unwrap();
    assert_eq!(pipelines[0].output_redirect, Some("output.txt".to_string()));
    assert!(!pipelines[0].append);
}

#[test]
fn test_parse_append() {
    let env = Env::new();
    let pipelines = parse("echo hello >> output.txt", &env).unwrap();
    assert_eq!(pipelines[0].output_redirect, Some("output.txt".to_string()));
    assert!(pipelines[0].append);
}

#[test]
fn test_parse_input_redirect() {
    let env = Env::new();
    let pipelines = parse("cat < input.txt", &env).unwrap();
    assert_eq!(pipelines[0].input_redirect, Some("input.txt".to_string()));
}

#[test]
fn test_parse_semicolon() {
    let env = Env::new();
    let pipelines = parse("echo hello; echo world", &env).unwrap();
    assert_eq!(pipelines.len(), 2);
    assert_eq!(pipelines[0].commands[0].args, vec!["echo", "hello"]);
    assert_eq!(pipelines[1].commands[0].args, vec!["echo", "world"]);
}

#[test]
fn test_parse_complex() {
    let env = Env::new();
    let pipelines = parse("echo hello | grep h > /tmp/out; cat < /tmp/out", &env).unwrap();
    assert_eq!(pipelines.len(), 2);
    assert_eq!(pipelines[0].commands.len(), 2);
    assert_eq!(pipelines[0].output_redirect, Some("/tmp/out".to_string()));
    assert_eq!(pipelines[1].input_redirect, Some("/tmp/out".to_string()));
}

#[test]
fn test_expand_exit_status() {
    let mut env = Env::new();
    env.set("?", "1");
    assert_eq!(expand("$?", &env), "1");
}

#[test]
fn test_tokenize_adjacent_redirect() {
    assert_eq!(tok("echo hello>file"), vec!["echo", "hello", ">", "file"]);
}

#[test]
fn test_trailing_backslash_tokenize() {
    let result = tokenize_str(r"hello\");
    assert!(result.is_err());
    assert!(result.unwrap_err().message.contains("EOF after"));
}

#[test]
fn test_trailing_backslash_expand() {
    let env = Env::new();
    let result = expand_str(r"hello\", &env);
    assert!(result.is_err());
    assert!(result.unwrap_err().message.contains("EOF after"));
}

#[test]
fn test_unterminated_dollar_brace() {
    let env = Env::new();
    let result = expand_str("${FOO", &env);
    assert!(result.is_err());
    assert!(result.unwrap_err().message.contains("unterminated ${"));
}

#[test]
fn test_unterminated_single_quote() {
    let result = tokenize_str("'hello");
    assert!(result.is_err());
    assert!(result
        .unwrap_err()
        .message
        .contains("unterminated single quote"));
}

#[test]
fn test_unterminated_double_quote() {
    let result = tokenize_str("\"hello");
    assert!(result.is_err());
    assert!(result
        .unwrap_err()
        .message
        .contains("unterminated double quote"));
}

#[test]
fn test_parse_trailing_backslash() {
    let env = Env::new();
    let result = parse(r"echo hello\", &env);
    assert!(result.is_err());
}

#[test]
fn test_parse_unterminated_var() {
    let env = Env::new();
    let result = parse("echo ${FOO", &env);
    assert!(result.is_err());
}
