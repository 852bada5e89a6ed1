//! Replaying seeds.

use simkv::harness::replay::replay;
use simkv::harness::{run, SimConfig};
use simkv::simcore::trace::Level;
use simkv::simcore::SECONDS;

#[test]
fn the_same_seed_replays_identically() {
    let r = replay(SimConfig::benign(11), Level::Off, 2);
    assert!(r.deterministic(), "{}", r.render());
    assert_eq!(r.fingerprints.len(), 3);
    assert!(r.fingerprints.iter().all(|f| *f == r.fingerprint));
}

#[test]
fn tracing_does_not_change_the_run() {
    // The property the whole debugging story rests on: turning the log up
    // must not alter a single decision.
    let cfg = SimConfig::benign(12);
    let quiet = run({
        let mut c = cfg.clone();
        c.trace_level = Level::Off;
        c
    });
    let loud = replay(cfg, Level::Debug, 0);
    assert_eq!(
        quiet.fingerprint, loud.fingerprint,
        "tracing perturbed the simulation"
    );
    assert!(
        !loud.trace.is_empty(),
        "debug replay should produce a trace"
    );
    assert_eq!(quiet.stats.ops_completed, loud.outcome.stats.ops_completed);
}

#[test]
fn different_seeds_produce_different_fingerprints() {
    let a = replay(SimConfig::benign(21), Level::Off, 0);
    let b = replay(SimConfig::benign(22), Level::Off, 0);
    assert_ne!(a.fingerprint, b.fingerprint);
}

#[test]
fn a_faulty_run_is_also_reproducible() {
    let mut cfg = SimConfig::with_seed(4242);
    cfg.duration = 3 * SECONDS;
    cfg.settle = 6 * SECONDS;
    cfg.drain = 2 * SECONDS;
    cfg.normalise();
    let r = replay(cfg, Level::Off, 2);
    assert!(r.deterministic(), "{}", r.render());
}
