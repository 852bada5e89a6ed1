//! Reports.

use simkv::checker::{Report, Violation};

#[test]
fn report_keeps_the_first_failures_of_each_kind() {
    let mut r = Report::new();
    for i in 0..10 {
        r.add(Violation::new("election_safety", i, None, format!("v{i}")));
    }
    r.add(Violation::new("log_matching", 100, None, "x".into()));
    assert_eq!(r.violations().len(), 4);
    assert_eq!(r.signature(), Some("election_safety"));
    assert!(r.render().contains("log_matching"));
}

#[test]
fn an_empty_report_has_no_signature() {
    assert!(Report::new().is_empty());
    assert_eq!(Report::new().signature(), None);
}
