//! Cutting failures down.

use simkv::harness::shrink::{candidates, describe, round_duration, shrink};
use simkv::harness::SimConfig;
use simkv::simcore::disk::DiskConfig;
use simkv::simcore::faults::FaultConfig;
use simkv::simcore::net::NetConfig;
use simkv::simcore::{MILLIS, SECONDS};

#[test]
fn shrinking_a_passing_config_returns_nothing() {
    let mut logged = String::new();
    let r = shrink(SimConfig::benign(1), 10, |s| logged.push_str(s));
    assert!(r.is_none());
    assert!(logged.contains("does not fail"));
}

#[test]
fn every_candidate_strictly_simplifies() {
    // A candidate that returns an unchanged config would loop forever.
    let cfg = SimConfig::default();
    for c in candidates() {
        if let Some(next) = c.apply(&cfg) {
            assert_ne!(
                describe(&next),
                describe(&cfg),
                "candidate {:?} did not change anything visible",
                c.label()
            );
        }
    }
}

#[test]
fn candidates_are_idempotent_at_their_floor() {
    // Applying a candidate to a config it has already been applied to must
    // eventually return None, or shrinking would not terminate.
    let mut cfg = SimConfig {
        servers: 1,
        clients: 1,
        duration: 500 * MILLIS,
        settle: 5 * SECONDS,
        ..SimConfig::default()
    };
    cfg.workload.keys = 1;
    cfg.faults = FaultConfig::none();
    cfg.net = NetConfig::reliable();
    cfg.disk = DiskConfig::reliable();
    cfg.workload.cas_weight = 0;
    cfg.workload.delete_weight = 0;
    cfg.workload.read_weight = 0;
    for c in candidates() {
        assert!(
            c.apply(&cfg).is_none(),
            "candidate {:?} still wants to shrink a minimal config",
            c.label()
        );
    }
}

#[test]
fn describe_names_the_active_faults() {
    let cfg = SimConfig::default();
    let d = describe(&cfg);
    assert!(d.contains("crashes"));
    assert!(d.contains("partitions"));
    assert!(d.contains("torn="));
    assert!(
        d.contains("cas:"),
        "the op mix belongs in a repro description"
    );
}

#[test]
fn round_duration_rounds_up() {
    assert_eq!(round_duration(1), 100 * MILLIS);
    assert_eq!(round_duration(100 * MILLIS), 100 * MILLIS);
    assert_eq!(round_duration(101 * MILLIS), 200 * MILLIS);
}
