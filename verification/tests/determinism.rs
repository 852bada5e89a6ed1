//! Noticing runs that differ.

use simkv::simcore::determinism::{divergence_report, first_divergence, verify};
use simkv::simcore::rng::Rng;
use simkv::simcore::trace::{Fingerprint, Level, Trace};
use simkv::simcore::NodeId;

#[test]
fn deterministic_runs_agree() {
    let f = verify(5, |_| {
        let mut t = Trace::new(Level::Off);
        let mut r = Rng::new(99);
        for i in 0..100 {
            t.observe(i, Some(NodeId(0)), "x", &[r.next_u64()]);
        }
        t.fingerprint()
    })
    .expect("should be deterministic");
    assert_ne!(f, Fingerprint::new());
}

#[test]
fn hidden_state_is_caught() {
    let mut counter = 0u64;
    let err = verify(3, |_| {
        counter += 1;
        let mut t = Trace::new(Level::Off);
        t.observe(0, None, "x", &[counter]);
        t.fingerprint()
    })
    .expect_err("must detect the smuggled counter");
    assert_eq!(err.run, 1);
}

#[test]
fn divergence_points_at_the_first_difference() {
    let mk = |vals: &[u64]| {
        let mut t = Trace::new(Level::Debug);
        for v in vals {
            t.log(Level::Info, *v, None, "c", &format!("v={v}"));
        }
        t
    };
    let a = mk(&[1, 2, 3, 4]);
    let b = mk(&[1, 2, 9, 4]);
    assert_eq!(first_divergence(a.records(), b.records()), Some(2));
    assert_eq!(first_divergence(a.records(), a.records()), None);
    // A prefix diverges at the point it runs out.
    let c = mk(&[1, 2]);
    assert_eq!(first_divergence(a.records(), c.records()), Some(2));
    assert!(divergence_report(a.records(), b.records(), 1).contains("record 2"));
}
