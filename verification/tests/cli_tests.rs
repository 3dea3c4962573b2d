//! Command-line parsing: flags, values and exact error messages.

use globdiff::cli::parse_args_from_vec;
use globdiff::cli::Args;

fn parse(args: &[&str]) -> Result<Args, String> {
    let args: Vec<String> = args.iter().map(|s| s.to_string()).collect();
    parse_args_from_vec(&args)
}

#[test]
fn test_parse_single_pattern() {
    let result = parse(&["-p", "*.txt"]);
    assert_eq!(
        result,
        Ok(Args {
            patterns: vec!["*.txt".to_string()],
            base_ref: None,
            github_output: None,
        })
    );
}

#[test]
fn test_parse_multiple_patterns() {
    let result = parse(&["-p", "*.txt", "-p", "*.rs"]);
    assert_eq!(
        result,
        Ok(Args {
            patterns: vec!["*.txt".to_string(), "*.rs".to_string()],
            base_ref: None,
            github_output: None,
        })
    );
}

#[test]
fn test_parse_with_base_ref() {
    let result = parse(&["-p", "*.txt", "-b", "main"]);
    assert_eq!(
        result,
        Ok(Args {
            patterns: vec!["*.txt".to_string()],
            base_ref: Some("main".to_string()),
            github_output: None,
        })
    );
}

#[test]
fn test_parse_with_github_output() {
    let result = parse(&["-p", "*.txt", "-g", "api"]);
    assert_eq!(
        result,
        Ok(Args {
            patterns: vec!["*.txt".to_string()],
            base_ref: None,
            github_output: Some("api".to_string()),
        })
    );
}

#[test]
fn test_parse_all_flags() {
    let result = parse(&["-p", "*.txt", "-p", "*.rs", "-b", "main", "-g", "api"]);
    assert_eq!(
        result,
        Ok(Args {
            patterns: vec!["*.txt".to_string(), "*.rs".to_string()],
            base_ref: Some("main".to_string()),
            github_output: Some("api".to_string()),
        })
    );
}

#[test]
fn test_parse_long_form_flags() {
    let result = parse(&[
        "--pattern",
        "*.txt",
        "--base-ref",
        "main",
        "--github-output",
        "api",
    ]);
    assert_eq!(
        result,
        Ok(Args {
            patterns: vec!["*.txt".to_string()],
            base_ref: Some("main".to_string()),
            github_output: Some("api".to_string()),
        })
    );
}

#[test]
fn test_parse_mixed_short_long_flags() {
    let result = parse(&["-p", "*.txt", "--base-ref", "main", "-g", "api"]);
    assert_eq!(
        result,
        Ok(Args {
            patterns: vec!["*.txt".to_string()],
            base_ref: Some("main".to_string()),
            github_output: Some("api".to_string()),
        })
    );
}

#[test]
fn test_error_missing_pattern() {
    let result = parse(&["-b", "main"]);
    assert_eq!(
        result,
        Err("at least one --pattern is required".to_string())
    );
}

#[test]
fn test_error_pattern_without_value() {
    let result = parse(&["-p"]);
    assert_eq!(result, Err("-p requires a value".to_string()));
}

#[test]
fn test_error_base_ref_without_value() {
    let result = parse(&["-p", "*.txt", "-b"]);
    assert_eq!(result, Err("-b requires a value".to_string()));
}

#[test]
fn test_error_github_output_without_value() {
    let result = parse(&["-p", "*.txt", "-g"]);
    assert_eq!(result, Err("-g requires a value".to_string()));
}

#[test]
fn test_error_unknown_flag() {
    let result = parse(&["-p", "*.txt", "-x"]);
    assert_eq!(result, Err("Unknown flag: -x".to_string()));
}

#[test]
fn test_error_unknown_long_flag() {
    let result = parse(&["-p", "*.txt", "--unknown"]);
    assert_eq!(result, Err("Unknown flag: --unknown".to_string()));
}

#[test]
fn test_error_unexpected_positional_argument() {
    let result = parse(&["-p", "*.txt", "extra"]);
    assert_eq!(result, Err("Unexpected argument: extra".to_string()));
}

#[test]
fn test_error_duplicate_base_ref() {
    let result = parse(&["-p", "*.txt", "-b", "main", "-b", "develop"]);
    assert_eq!(
        result,
        Err("-b can only be specified once".to_string())
    );
}

#[test]
fn test_error_duplicate_github_output() {
    let result = parse(&["-p", "*.txt", "-g", "api", "-g", "service"]);
    assert_eq!(
        result,
        Err("-g can only be specified once".to_string())
    );
}

#[test]
fn test_empty_args() {
    let result = parse(&[]);
    assert_eq!(
        result,
        Err("at least one --pattern is required".to_string())
    );
}

#[test]
fn test_pattern_with_spaces() {
    let result = parse(&["-p", "src/**/*.rs", "-b", "refs/tags/v1.0"]);
    assert_eq!(
        result,
        Ok(Args {
            patterns: vec!["src/**/*.rs".to_string()],
            base_ref: Some("refs/tags/v1.0".to_string()),
            github_output: None,
        })
    );
}

#[test]
fn test_multiple_patterns_various_order() {
    let result = parse(&["-b", "main", "-p", "*.txt", "-g", "api", "-p", "*.rs"]);
    assert_eq!(
        result,
        Ok(Args {
            patterns: vec!["*.txt".to_string(), "*.rs".to_string()],
            base_ref: Some("main".to_string()),
            github_output: Some("api".to_string()),
        })
    );
}
