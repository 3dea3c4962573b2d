//! Matcher scenarios over the core pattern forms: literals, wildcards,
//! globstars, escapes and character classes.

use globdiff::matcher::match_batch;

#[test]
fn match_test_literal_exact_match() {
    let result = match_batch("abc", &["abc", "axc", "ab"]).unwrap();
    assert_eq!(result, vec![true, false, false]);
}

#[test]
fn match_test_literal_multiple_strings() {
    let result = match_batch("test", &["test", "TEST", "testing", "test2"]).unwrap();
    assert_eq!(result, vec![true, false, false, false]);
}

#[test]
fn match_test_wildcard_simple() {
    let result = match_batch("*.txt", &["file.txt", "doc.txt", "file.rs", "dir/file.txt"]).unwrap();
    assert_eq!(result, vec![true, true, false, false]);
}

#[test]
fn match_test_wildcard_with_prefix() {
    let result = match_batch("test*.rs", &["test.rs", "test_util.rs", "mytest.rs", "test.txt"]).unwrap();
    assert_eq!(result, vec![true, true, false, false]);
}

#[test]
fn match_test_wildcard_empty_anchor() {
    let result = match_batch("test*", &["test", "testing", "test123", "tes"]).unwrap();
    assert_eq!(result, vec![true, true, true, false]);
}

#[test]
fn match_test_globstar_simple() {
    let result = match_batch("**/*.rs", &["main.rs", "src/lib.rs", "a/b/c.rs", "test.txt"]).unwrap();
    assert_eq!(result, vec![true, true, true, false]);
}

#[test]
fn match_test_globstar_with_prefix() {
    let result = match_batch("src/**/*.rs", &["src/main.rs", "src/a/b.rs", "lib/c.rs", "src/test.txt"]).unwrap();
    assert_eq!(result, vec![true, true, false, false]);
}

#[test]
fn match_test_globstar_empty_anchor() {
    let result = match_batch("src/**", &["src/a", "src/a/b/c", "lib/x", "src"]).unwrap();
    assert_eq!(result, vec![true, true, false, false]);
}

#[test]
fn match_test_escaped_characters() {
    let result = match_batch(r"test\*.txt", &["test*.txt", "test.txt", "testing.txt"]).unwrap();
    assert_eq!(result, vec![true, false, false]);
}

#[test]
fn match_test_charset_simple() {
    let result = match_batch("test[123]", &["test1", "test2", "test3", "test4", "testx"]).unwrap();
    assert_eq!(result, vec![true, true, true, false, false]);
}

#[test]
fn match_test_charset_range() {
    let result = match_batch("file[0-9].txt", &["file0.txt", "file5.txt", "file9.txt", "filea.txt"]).unwrap();
    assert_eq!(result, vec![true, true, true, false]);
}

#[test]
fn match_test_charset_negated() {
    let result = match_batch("test[!abc]", &["testx", "testy", "testa", "testb"]).unwrap();
    assert_eq!(result, vec![true, true, false, false]);
}

#[test]
fn match_test_directory_prefix_match() {
    let result = match_batch("src", &["src/main.rs", "src/lib", "srcx", "sr"]).unwrap();
    assert_eq!(result, vec![true, true, false, false]);
}

#[test]
fn match_test_complex_pattern() {
    let pattern = "src/**/*[._]test.rs";
    let strings = vec![
        "src/my_test.rs",
        "src/a/b/util_test.rs",
        "src/lib.test.rs",
        "src/main.rs",
        "lib/test.rs",
    ];
    let result = match_batch(pattern, &strings).unwrap();
    assert_eq!(result, vec![true, true, true, false, false]);
}

#[test]
fn match_test_empty_strings() {
    let result = match_batch("test", &[]).unwrap();
    assert_eq!(result, Vec::<bool>::new());
}

#[test]
fn match_test_wildcard_across_slash_boundary() {
    let result = match_batch("*.txt", &["file.txt", "dir/file.txt"]).unwrap();
    assert_eq!(result, vec![true, false]);
}

#[test]
fn match_test_multiple_wildcards() {
    let result = match_batch("*test*.rs", &["mytest.rs", "test_util.rs", "testing_lib.rs", "main.rs"]).unwrap();
    assert_eq!(result, vec![true, true, true, false]);
}

#[test]
fn match_test_globstar_not_crossing_without_slash() {
    // ** without / in anchor should behave like *
    let result = match_batch("**test", &["test", "mytest", "dir/test"]).unwrap();
    assert_eq!(result, vec![true, true, false]);
}

#[test]
fn match_test_charset_escaped_closing_bracket() {
    let result = match_batch("test[\\]]", &["test]", "test[", "testx"]).unwrap();
    assert_eq!(result, vec![true, false, false]);
}

#[test]
fn match_test_charset_escaped_dash() {
    let result = match_batch("test[a\\-z]", &["testa", "test-", "testz", "testb"]).unwrap();
    assert_eq!(result, vec![true, true, true, false]);
}

#[test]
fn match_test_charset_escaped_backslash() {
    let result = match_batch("test[\\\\]", &["test\\", "testa", "testx"]).unwrap();
    assert_eq!(result, vec![true, false, false]);
}
