//! Whole runs.

use simkv::checker::linearizability::Verdict;
use simkv::harness::{run, SimConfig};
use simkv::simcore::SECONDS;

#[test]
fn a_benign_run_is_correct_and_makes_progress() {
    let out = run(SimConfig::benign(1));
    assert!(
        !out.failed(),
        "a fault-free run must be clean:\n{}",
        out.detail()
    );
    assert_eq!(out.verdict, Verdict::Linearizable);
    assert!(
        out.stats.ops_completed > 50,
        "expected real progress, got {}",
        out.stats.ops_completed
    );
    assert!(out.stats.leaders_elected >= 1, "someone has to lead");
}

#[test]
fn a_single_node_cluster_works() {
    // Degenerate but legal: quorum of one, elects itself immediately.
    let mut cfg = SimConfig::benign(7);
    cfg.servers = 1;
    cfg.clients = 2;
    let out = run(cfg);
    assert!(!out.failed(), "{}", out.detail());
    assert!(out.stats.ops_completed > 20);
}

#[test]
fn config_normalisation_keeps_the_window_inside_the_run() {
    let mut cfg = SimConfig::default();
    cfg.duration = 3 * SECONDS;
    cfg.normalise();
    assert_eq!(cfg.faults.window.1, 3 * SECONDS);
    assert!(cfg.faults.window.0 <= cfg.faults.window.1);
}
