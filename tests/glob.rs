use rush::glob::{contains_glob_chars, expand_globs, expand_single_glob, is_quoted, select_matches, unescape_non_glob, unquote};

#[test]
fn test_contains_glob_chars_star() {
    assert!(contains_glob_chars("*.rs"));
    assert!(contains_glob_chars("file*"));
    assert!(contains_glob_chars("*"));
}

#[test]
fn test_contains_glob_chars_question() {
    assert!(contains_glob_chars("file?.txt"));
    assert!(contains_glob_chars("?"));
    assert!(contains_glob_chars("a?b"));
}

#[test]
fn test_contains_glob_chars_bracket() {
    assert!(contains_glob_chars("[abc]"));
    assert!(contains_glob_chars("file[0-9].txt"));
    assert!(contains_glob_chars("[!a]"));
}

#[test]
fn test_contains_glob_chars_none() {
    assert!(!contains_glob_chars("file.txt"));
    assert!(!contains_glob_chars("hello"));
    assert!(!contains_glob_chars("path/to/file"));
}

#[test]
fn test_contains_glob_chars_escaped() {
    assert!(!contains_glob_chars(r"\*"));
    assert!(!contains_glob_chars(r"\?"));
    assert!(!contains_glob_chars(r"\[abc\]"));
    assert!(!contains_glob_chars(r"\*.rs"));
    assert!(contains_glob_chars(r"*.rs\?"));
}

#[test]
fn test_is_quoted() {
    assert!(is_quoted("\"hello\""));
    assert!(is_quoted("'hello'"));
    assert!(!is_quoted("hello"));
    assert!(!is_quoted("\"hello"));
    assert!(!is_quoted("hello\""));
}

#[test]
fn test_unquote() {
    assert_eq!(unquote("\"hello\""), "hello");
    assert_eq!(unquote("'world'"), "world");
    assert_eq!(unquote("noquotes"), "noquotes");
}

#[test]
fn test_expand_globs_no_pattern() {
    let args = vec!["file.txt".to_string(), "other.rs".to_string()];
    let result = expand_globs(&args);
    assert_eq!(result, args);
}

#[test]
fn test_expand_globs_quoted() {
    let args = vec!["\"*.rs\"".to_string()];
    let result = expand_globs(&args);
    assert_eq!(result, vec!["*.rs"]);
}

#[test]
fn test_escaped_glob_chars() {
    let result = expand_single_glob(r"\*.rs");
    assert_eq!(result.len(), 1);
}

#[test]
fn escapes_become_classes_for_the_matcher() {
    assert_eq!(unescape_non_glob(r"a\*b\?c\[d"), "a[*]b[?]c[[]d");
    assert_eq!(unescape_non_glob(r"a\nb"), r"a\nb");
}

#[test]
fn matches_sorted_case_insensitively() {
    let found = vec!["dir/b".to_string(), "dir/A".to_string(), "dir/c".to_string()];
    assert_eq!(select_matches("dir/*", "dir/*", Some(found)), vec!["dir/A", "dir/b", "dir/c"]);
}

#[test]
fn directory_of_a_and_b_with_star() {
    let found = vec!["b".to_string(), "a".to_string()];
    assert_eq!(select_matches("*", "*", Some(found)), vec!["a", "b"]);
}

#[test]
fn no_match_keeps_the_literal_pattern() {
    assert_eq!(select_matches("z*", "z*", Some(vec![])), vec!["z*"]);
    assert_eq!(select_matches("[", "[", None), vec!["["]);
}

#[test]
fn hidden_files_need_an_explicit_dot() {
    let found = vec!["d/.hidden".to_string(), "d/visible".to_string()];
    assert_eq!(select_matches("d/*", "d/*", Some(found.clone())), vec!["d/visible"]);
    assert_eq!(select_matches("d/.*", "d/.*", Some(found)), vec!["d/.hidden", "d/visible"]);
}

#[test]
fn only_hidden_matches_fall_back_to_literal() {
    let found = vec!["d/.x".to_string()];
    assert_eq!(select_matches("d/*", "d/*", Some(found)), vec!["d/*"]);
}

#[test]
fn lower_case_keys_decide_the_order() {
    let found = vec!["B".to_string(), "a".to_string(), "C".to_string()];
    assert_eq!(select_matches("*", "*", Some(found)), vec!["a", "B", "C"]);
}

#[test]
fn rejected_pattern_stays_literal() {
    assert_eq!(expand_single_glob("[unclosed"), vec!["[unclosed"]);
}

#[test]
fn trailing_slash_pattern_asks_for_hidden() {
    let found = vec!["d/.git/".to_string(), "d/src/".to_string()];
    assert_eq!(select_matches("d/.*/", "d/.*/", Some(found.clone())), vec!["d/.git/", "d/src/"]);
    assert_eq!(select_matches("d/*/", "d/*/", Some(found)), vec!["d/src/"]);
}

#[test]
fn groups_follow_the_arguments() {
    let args = vec!["'*'".to_string(), "plain".to_string(), "[bad".to_string()];
    assert_eq!(expand_globs(&args), vec!["*", "plain", "[bad"]);
}
