//! Fingerprints and logs.

use simkv::simcore::trace::{Level, Trace};
use simkv::simcore::NodeId;

#[test]
fn fingerprint_is_order_sensitive() {
    let mut a = Trace::new(Level::Off);
    let mut b = Trace::new(Level::Off);
    a.observe(1, Some(NodeId(0)), "x", &[1]);
    a.observe(2, Some(NodeId(1)), "y", &[2]);
    b.observe(2, Some(NodeId(1)), "y", &[2]);
    b.observe(1, Some(NodeId(0)), "x", &[1]);
    assert_ne!(a.fingerprint(), b.fingerprint());
}

#[test]
fn fingerprint_ignores_log_level() {
    let mut quiet = Trace::new(Level::Off);
    let mut loud = Trace::new(Level::Debug);
    for i in 0..100 {
        quiet.observe(i, Some(NodeId(0)), "step", &[i]);
        loud.observe(i, Some(NodeId(0)), "step", &[i]);
        quiet.log(Level::Debug, i, None, "noise", "hello");
        loud.log(Level::Debug, i, None, "noise", "hello");
    }
    assert_eq!(quiet.fingerprint(), loud.fingerprint());
    assert!(quiet.records().is_empty());
    assert_eq!(loud.records().len(), 100);
}

#[test]
fn filtering_respects_level() {
    let mut t = Trace::new(Level::Warn);
    t.log(Level::Debug, 0, None, "c", "no");
    t.log(Level::Info, 0, None, "c", "no");
    t.log(Level::Warn, 0, None, "c", "yes");
    t.log(Level::Error, 0, None, "c", "yes");
    assert_eq!(t.records().len(), 2);
}

#[test]
fn record_window_is_bounded() {
    let mut t = Trace::new(Level::Debug);
    t.max_records = 100;
    for i in 0..1000 {
        t.log(Level::Info, i, None, "c", "x");
    }
    assert!(t.records().len() <= 100);
    assert!(t.dropped() > 0);
    // The newest record must survive eviction.
    assert_eq!(t.records().last().unwrap().time, 999);
}

#[test]
fn level_parses() {
    assert_eq!(Level::parse("DEBUG"), Some(Level::Debug));
    assert_eq!(Level::parse("off"), Some(Level::Off));
    assert_eq!(Level::parse("bogus"), None);
}
