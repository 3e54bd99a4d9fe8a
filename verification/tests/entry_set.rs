//! Behaviour of the sorted entry collection and the string ordering.

use adlist_merge::entries::EntrySet;
use adlist_merge::pipeline::publish;
use adlist_merge::text::is_wsp_char;
use adlist_merge::text::str_eq;
use adlist_merge::text::str_lt;

#[test]
fn insert_keeps_order_and_drops_duplicates() {
    let mut set = EntrySet::new();
    set.insert("b.com".to_string());
    set.insert("a.com".to_string());
    set.insert("c.com".to_string());
    set.insert("a.com".to_string());
    assert_eq!(set.len(), 3);
    let out = publish(set);
    assert_eq!(
        out,
        vec!["a.com".to_string(), "b.com".to_string(), "c.com".to_string()]
    );
}

#[test]
fn contains_reports_membership() {
    let mut set = EntrySet::new();
    set.insert("a.com".to_string());
    set.insert("b.com".to_string());
    assert!(set.contains("a.com"));
    assert!(set.contains("b.com"));
    assert!(!set.contains("c.com"));
    assert!(!set.contains(""));
}

#[test]
fn empty_set_publishes_zero_lines() {
    let set = EntrySet::new();
    assert_eq!(set.len(), 0);
    let out = publish(set);
    assert!(out.is_empty());
}

#[test]
fn string_order_is_bytewise() {
    assert!(str_lt("a", "b"));
    assert!(!str_lt("b", "a"));
    assert!(str_lt("a", "ab"));
    assert!(!str_lt("ab", "a"));
    assert!(!str_lt("a", "a"));
    assert!(str_lt("", "a"));
    assert!(str_lt("BAR.com", "foo.com"));
    assert!(str_lt("a.com", "\u{00E9}.com"));
}

#[test]
fn string_equality_by_content() {
    assert!(str_eq("a.com", "a.com"));
    assert!(!str_eq("a.com", "a.co"));
    assert!(!str_eq("", "a"));
    assert!(str_eq("", ""));
}

#[test]
fn whitespace_classification() {
    assert!(is_wsp_char(' '));
    assert!(is_wsp_char('\t'));
    assert!(is_wsp_char('\r'));
    assert!(is_wsp_char('\n'));
    assert!(is_wsp_char('\u{00A0}'));
    assert!(is_wsp_char('\u{2003}'));
    assert!(is_wsp_char('\u{3000}'));
    assert!(!is_wsp_char('a'));
    assert!(!is_wsp_char('#'));
    assert!(!is_wsp_char('\u{200B}'));
}
