use wkit::digits::{milli_to_string, parse_milli, parse_u64, u64_to_string};
use wkit::text::{contains_str, last_segment, lines_of, split_str, starts_with, str_eq, trim};

#[test]
fn test_u64_codec() {
    assert_eq!(u64_to_string(0), "0");
    assert_eq!(u64_to_string(1640995200), "1640995200");
    assert_eq!(u64_to_string(u64::MAX), "18446744073709551615");
    assert_eq!(parse_u64("0"), Some(0));
    assert_eq!(parse_u64("007"), Some(7));
    assert_eq!(parse_u64("18446744073709551615"), Some(u64::MAX));
    assert_eq!(parse_u64("18446744073709551616"), None);
    assert_eq!(parse_u64(""), None);
    assert_eq!(parse_u64("12a"), None);
    assert_eq!(parse_u64("+7"), None);
}

#[test]
fn test_milli_codec() {
    assert_eq!(milli_to_string(5500), "5.5");
    assert_eq!(milli_to_string(5250), "5.25");
    assert_eq!(milli_to_string(5205), "5.205");
    assert_eq!(milli_to_string(5), "0.005");
    assert_eq!(milli_to_string(3000), "3");
    assert_eq!(parse_milli("5.5"), Some(5500));
    assert_eq!(parse_milli("5."), Some(5000));
    assert_eq!(parse_milli(".5"), Some(500));
    assert_eq!(parse_milli("5.50"), Some(5500));
    assert_eq!(parse_milli("."), None);
    assert_eq!(parse_milli("5.1234"), None);
    assert_eq!(parse_milli("-1"), None);
}

#[test]
fn test_string_helpers() {
    assert!(str_eq("abc", "abc"));
    assert!(!str_eq("abc", "abd"));
    assert!(starts_with("worktree /x", "worktree "));
    assert!(!starts_with("HEAD x", "worktree "));
    assert!(contains_str("/repos/widget", "widg"));
    assert!(!contains_str("/repos/widget", "gadget"));
    assert!(contains_str("anything", ""));
    assert_eq!(trim("  * feature\n"), "* feature");
    assert_eq!(trim("   "), "");
    assert_eq!(last_segment("/a/b/c", '/'), "c");
    assert_eq!(last_segment("plain", '/'), "plain");
}

#[test]
fn test_split_and_lines() {
    let parts = split_str("a|b|c", '|');
    assert_eq!(parts, vec!["a", "b", "c"]);
    let parts = split_str("||", '|');
    assert_eq!(parts, vec!["", "", ""]);
    let lines = lines_of("one\ntwo\r\nthree");
    assert_eq!(lines, vec!["one", "two", "three"]);
    let lines = lines_of("");
    assert!(lines.is_empty());
    let lines = lines_of("last\n");
    assert_eq!(lines, vec!["last"]);
}
