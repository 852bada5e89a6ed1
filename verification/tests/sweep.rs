//! Sweeps over many seeds.

use simkv::harness::sweep::{sweep, SweepConfig};
use simkv::harness::SimConfig;

#[test]
fn a_sweep_of_benign_seeds_finds_nothing() {
    let cfg = SweepConfig {
        base: SimConfig::benign(0),
        start_seed: 1,
        count: 8,
        threads: 4,
        stop_after: 0,
        verbose: false,
    };
    let r = sweep(cfg);
    assert_eq!(r.runs, 8);
    assert!(r.passed(), "{}", r.render());
    assert!(r.ops_completed > 100, "the sweep should do real work");
}

#[test]
fn sweeps_are_reproducible_regardless_of_thread_count() {
    // Same seeds, different parallelism: identical conclusions.
    let base = SimConfig::benign(0);
    let mk = |threads| SweepConfig {
        base: base.clone(),
        start_seed: 100,
        count: 6,
        threads,
        stop_after: 0,
        verbose: false,
    };
    let a = sweep(mk(1));
    let b = sweep(mk(6));
    assert_eq!(a.runs, b.runs);
    assert_eq!(a.ops_completed, b.ops_completed);
    assert_eq!(a.failures.len(), b.failures.len());
}

#[test]
fn stop_after_halts_the_sweep_early() {
    // Nothing fails here, so stop_after must not cut a clean sweep short.
    let cfg = SweepConfig {
        base: SimConfig::benign(0),
        start_seed: 1,
        count: 4,
        threads: 2,
        stop_after: 1,
        verbose: false,
    };
    let r = sweep(cfg);
    assert_eq!(r.runs, 4);
}
