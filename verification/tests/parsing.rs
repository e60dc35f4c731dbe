use rust_shell::parser::parse_input;
use rust_shell::number::{parse_usize, push_decimal};
use rust_shell::lcp::longest_common_prefix;
use rust_shell::order::sort_strings;

fn toks(s: &str) -> Vec<String> {
    parse_input(s)
}

#[test]
fn parse_plain_words() {
    assert_eq!(toks("echo hello world"), vec!["echo", "hello", "world"]);
}

#[test]
fn parse_collapses_blanks_and_tabs() {
    assert_eq!(toks("  ls \t -l   /tmp  "), vec!["ls", "-l", "/tmp"]);
}

#[test]
fn parse_empty_and_blank_lines() {
    assert!(toks("").is_empty());
    assert!(toks("   \t ").is_empty());
}

#[test]
fn parse_single_quotes_are_literal() {
    assert_eq!(toks("echo 'hello   world' 'a\\b'"), vec!["echo", "hello   world", "a\\b"]);
}

#[test]
fn parse_double_quotes_keep_single_quotes() {
    assert_eq!(toks("echo \"it's here\""), vec!["echo", "it's here"]);
}

#[test]
fn parse_adjacent_quoted_parts_join() {
    assert_eq!(toks("echo 'a'\"b\"c"), vec!["echo", "abc"]);
}

#[test]
fn parse_backslash_in_double_quotes() {
    // \" and \\ are escapes, any other backslash is kept with the next character
    assert_eq!(toks("echo \"a\\\"b\\\\c\\nd\""), vec!["echo", "a\"b\\c\\nd"]);
}

#[test]
fn parse_trailing_backslash_in_double_quotes() {
    assert_eq!(toks("echo \"ab\\"), vec!["echo", "ab\\"]);
}

#[test]
fn parse_backslash_outside_quotes() {
    assert_eq!(toks("echo a\\ b \\'c"), vec!["echo", "a b", "'c"]);
    // a final lone backslash is dropped
    assert_eq!(toks("echo x\\"), vec!["echo", "x"]);
}

#[test]
fn parse_trims_line_ends() {
    assert_eq!(toks("echo hi\r\n"), vec!["echo", "hi"]);
    // a word made only of line ends becomes empty
    assert_eq!(toks("a \n\r"), vec!["a", ""]);
}

#[test]
fn parse_unterminated_quote_keeps_rest() {
    assert_eq!(toks("echo 'a b"), vec!["echo", "a b"]);
}

#[test]
fn decimal_output() {
    let mut s = String::from("n=");
    push_decimal(&mut s, 0);
    push_decimal(&mut s, 7);
    s.push(',');
    push_decimal(&mut s, 1234567);
    assert_eq!(s, "n=07,1234567");
}

#[test]
fn parse_usize_cases() {
    assert_eq!(parse_usize("42"), Some(42));
    assert_eq!(parse_usize("+42"), Some(42));
    assert_eq!(parse_usize("007"), Some(7));
    assert_eq!(parse_usize(""), None);
    assert_eq!(parse_usize("+"), None);
    assert_eq!(parse_usize("-1"), None);
    assert_eq!(parse_usize("4a"), None);
    assert_eq!(parse_usize(" 4"), None);
    assert_eq!(parse_usize(&usize::MAX.to_string()), Some(usize::MAX));
    assert_eq!(parse_usize("99999999999999999999999999"), None);
}

#[test]
fn parse_usize_matches_std() {
    for s in ["0", "12", "+3", "", "+", "-0", "1_0", "18446744073709551616", "x"] {
        assert_eq!(parse_usize(s), s.parse::<usize>().ok(), "{}", s);
    }
}

#[test]
fn common_prefix_cases() {
    let v = |xs: &[&str]| xs.iter().map(|s| s.to_string()).collect::<Vec<String>>();
    assert_eq!(longest_common_prefix(&v(&[])), "");
    assert_eq!(longest_common_prefix(&v(&["alone"])), "alone");
    assert_eq!(longest_common_prefix(&v(&["echo", "exit", "exec"])), "e");
    assert_eq!(longest_common_prefix(&v(&["history", "histogram"])), "histo");
    assert_eq!(longest_common_prefix(&v(&["abc", "xyz", "abd"])), "");
    assert_eq!(longest_common_prefix(&v(&["héllo", "hélium"])), "hél");
}

#[test]
fn sort_strings_orders_by_code_point() {
    let v: Vec<String> = ["pwd", "cat", "Cd", "cd", "é", "z", "cat"].iter().map(|s| s.to_string()).collect();
    let mut expected = v.clone();
    expected.sort();
    assert_eq!(sort_strings(v), expected);
}

#[test]
fn decimal_then_parse_roundtrip() {
    for n in [0usize, 9, 10, 99, 100, 65535, usize::MAX] {
        let mut s = String::new();
        push_decimal(&mut s, n);
        assert_eq!(parse_usize(&s), Some(n));
    }
}

#[test]
fn common_prefix_is_longest() {
    let v: Vec<String> = ["interrupt", "internal", "interval"].iter().map(|s| s.to_string()).collect();
    let p = longest_common_prefix(&v);
    assert_eq!(p, "inter");
    assert!(v.iter().all(|s| s.starts_with(&p)));
    let longer = "inter".to_string() + "r";
    assert!(!v.iter().all(|s| s.starts_with(&longer)));
}
