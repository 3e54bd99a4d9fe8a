//! Behaviour of the entry parser on concrete bodies.

use adlist_merge::parse::parse;
use adlist_merge::pipeline::publish;

fn parse_to_vec(body: &str) -> Vec<String> {
    publish(parse(body))
}

#[test]
fn comment_blank_duplicate_and_trailing_space() {
    let out = parse_to_vec("# comment\n\nfoo.com\nBAR.com \nfoo.com\n");
    assert_eq!(out, vec!["BAR.com".to_string(), "foo.com".to_string()]);
}

#[test]
fn empty_body_yields_no_entries() {
    let out = parse_to_vec("");
    assert!(out.is_empty());
}

#[test]
fn all_comments_and_blanks_yield_no_entries() {
    let out = parse_to_vec("# a\n#b\n\n   \n\t\n# c");
    assert!(out.is_empty());
}

#[test]
fn surrounding_whitespace_is_trimmed() {
    let out = parse_to_vec("  x.com  \n\ty.com\t\n");
    assert_eq!(out, vec!["x.com".to_string(), "y.com".to_string()]);
}

#[test]
fn crlf_line_endings_are_handled() {
    let out = parse_to_vec("a.com\r\nb.com\r\n");
    assert_eq!(out, vec!["a.com".to_string(), "b.com".to_string()]);
}

#[test]
fn unicode_whitespace_is_trimmed() {
    let out = parse_to_vec("\u{00A0}a.com\u{2003}\nb.com\u{3000}");
    assert_eq!(out, vec!["a.com".to_string(), "b.com".to_string()]);
}

#[test]
fn no_trailing_newline_still_parses_last_line() {
    let out = parse_to_vec("a.com\nb.com");
    assert_eq!(out, vec!["a.com".to_string(), "b.com".to_string()]);
}

#[test]
fn entries_are_normalized() {
    let out = parse_to_vec("  x.com  \n#c\n   \n# \nz.com");
    for e in &out {
        assert!(!e.is_empty());
        assert!(!e.starts_with('#'));
        assert_eq!(e, e.trim());
    }
    assert_eq!(out, vec!["x.com".to_string(), "z.com".to_string()]);
}

#[test]
fn comment_marker_after_whitespace_is_still_a_comment() {
    let out = parse_to_vec("   # indented comment\nok.com\n");
    assert_eq!(out, vec!["ok.com".to_string()]);
}

#[test]
fn parse_is_idempotent() {
    let body = "b.com\na.com\nb.com\n# c\n";
    let first = parse_to_vec(body);
    let second = parse_to_vec(body);
    assert_eq!(first, second);
    assert_eq!(first, vec!["a.com".to_string(), "b.com".to_string()]);
}
