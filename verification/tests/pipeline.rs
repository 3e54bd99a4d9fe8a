//! Behaviour of aggregation and publishing on concrete source collections.

use adlist_merge::pipeline::aggregate;
use adlist_merge::pipeline::publish;
use adlist_merge::pipeline::run_source;
use adlist_merge::pipeline::Fetched;
use adlist_merge::pipeline::SourceResult;

fn body(url: &str, text: &str) -> (String, Fetched) {
    (url.to_string(), Fetched::Body(text.to_string()))
}

fn failed(url: &str, reason: &str) -> (String, Fetched) {
    (url.to_string(), Fetched::FetchError(reason.to_string()))
}

fn run(sources: Vec<(String, Fetched)>) -> (Vec<String>, Vec<(String, String)>) {
    let (merged, reports) = aggregate(&sources);
    let out = publish(merged);
    let failures = reports.into_iter().map(|r| (r.url, r.reason)).collect();
    (out, failures)
}

#[test]
fn two_sources_merge_and_sort() {
    let (out, failures) = run(vec![
        body("http://a", "a.com\nc.com\n"),
        body("http://b", "b.com\na.com\n"),
    ]);
    assert_eq!(
        out,
        vec!["a.com".to_string(), "b.com".to_string(), "c.com".to_string()]
    );
    assert!(failures.is_empty());
}

#[test]
fn output_is_strictly_ascending_and_duplicate_free() {
    let (out, _) = run(vec![
        body("http://a", "z.com\nm.com\na.com\nz.com\n"),
        body("http://b", "m.com\nb.com\n"),
    ]);
    for pair in out.windows(2) {
        assert!(pair[0] < pair[1]);
    }
    assert_eq!(
        out,
        vec![
            "a.com".to_string(),
            "b.com".to_string(),
            "m.com".to_string(),
            "z.com".to_string()
        ]
    );
}

#[test]
fn merge_is_order_independent() {
    let first = run(vec![
        body("http://a", "a.com\nc.com\n"),
        body("http://b", "b.com\na.com\n"),
        failed("http://c", "timeout"),
    ]);
    let second = run(vec![
        failed("http://c", "timeout"),
        body("http://b", "b.com\na.com\n"),
        body("http://a", "a.com\nc.com\n"),
    ]);
    assert_eq!(first.0, second.0);
}

#[test]
fn failing_source_does_not_disturb_others() {
    let (out, failures) = run(vec![
        failed("http://a", "connection refused"),
        body("http://b", "x\ny\n"),
    ]);
    assert_eq!(out, vec!["x".to_string(), "y".to_string()]);
    assert_eq!(
        failures,
        vec![("http://a".to_string(), "connection refused".to_string())]
    );
}

#[test]
fn all_sources_failing_yields_empty_output() {
    let (out, failures) = run(vec![
        failed("http://a", "timeout"),
        failed("http://b", "status 500"),
    ]);
    assert!(out.is_empty());
    assert_eq!(failures.len(), 2);
    assert_eq!(failures[0], ("http://a".to_string(), "timeout".to_string()));
    assert_eq!(failures[1], ("http://b".to_string(), "status 500".to_string()));
}

#[test]
fn no_sources_yield_empty_output() {
    let (out, failures) = run(vec![]);
    assert!(out.is_empty());
    assert!(failures.is_empty());
}

#[test]
fn pipeline_is_deterministic_on_unchanged_sources() {
    let sources = || {
        vec![
            body("http://a", "b.com\na.com\n# c\n"),
            failed("http://b", "timeout"),
            body("http://c", "a.com\nz.com\n"),
        ]
    };
    let first = run(sources());
    let second = run(sources());
    assert_eq!(first, second);
    assert_eq!(
        first.0,
        vec!["a.com".to_string(), "b.com".to_string(), "z.com".to_string()]
    );
}

#[test]
fn run_source_parses_a_body() {
    let outcome = run_source(&Fetched::Body("b\na\n".to_string()));
    match outcome {
        SourceResult::Parsed(set) => {
            assert_eq!(set.len(), 2);
            assert!(set.contains("a"));
            assert!(set.contains("b"));
            assert!(!set.contains("c"));
        }
        SourceResult::Failed(_) => panic!("a body must parse"),
    }
}

#[test]
fn run_source_reports_a_failed_fetch() {
    let outcome = run_source(&Fetched::FetchError("dns error".to_string()));
    match outcome {
        SourceResult::Parsed(_) => panic!("a failed fetch must not parse"),
        SourceResult::Failed(reason) => assert_eq!(reason, "dns error"),
    }
}
