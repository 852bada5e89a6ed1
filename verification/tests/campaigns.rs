//! Runs under fire: correct stores survive them, broken ones do not.

use simkv::harness::replay::replay;
use simkv::harness::shrink::{describe, shrink};
use simkv::harness::sweep::{sweep, SweepConfig, SweepResult};
use simkv::harness::{run, RunOutcome, SimConfig};
use simkv::kvstore::bug::InjectedBug;
use simkv::simcore::trace::Level;
use simkv::simcore::SECONDS;
use std::time::Duration;

fn hostile(seed: u64) -> SimConfig {
    let mut cfg = SimConfig::with_seed(seed);
    cfg.duration = 8 * SECONDS;
    cfg.settle = 12 * SECONDS;
    cfg.drain = 3 * SECONDS;
    cfg.normalise();
    cfg
}

fn caught(bug: InjectedBug, seeds: u64) -> Option<RunOutcome> {
    (1..=seeds).find_map(|seed| {
        let mut cfg = hostile(seed);
        cfg.raft.bug = bug;
        let out = run(cfg);
        out.failed().then_some(out)
    })
}

#[test]
fn an_unmodified_store_survives_hostile_seeds() {
    for seed in 1..=6 {
        let out = run(hostile(seed));
        assert!(!out.failed(), "{}", out.detail());
        assert!(!out.incomplete);
        assert!(out.stats.ops_completed > 0 && out.stats.crashes > 0);
    }
}

#[test]
fn seeds_that_once_failed_stay_clean() {
    let mut batch = hostile(388);
    batch.raft.max_batch = 2;
    let mut claims = hostile(18);
    claims.check_durability_every = 1;
    for cfg in [batch, claims] {
        let out = run(cfg);
        assert!(!out.failed(), "{}", out.detail());
    }
}

#[test]
fn seeds_that_announced_a_term_too_early_stay_clean() {
    for seed in [2878, 4024] {
        let mut cfg = SimConfig::with_seed(seed);
        cfg.duration = 6 * SECONDS;
        cfg.settle = 10 * SECONDS;
        cfg.drain = 3 * SECONDS;
        cfg.normalise();
        let out = run(cfg);
        assert!(!out.failed(), "{}", out.detail());
    }
}

#[test]
fn applying_retries_twice_is_caught() {
    let out = caught(InjectedBug::NoDedup, 12).expect("the defect must be seen");
    assert_eq!(out.signature(), "linearizability");
}

#[test]
fn trusting_the_length_of_any_append_is_caught() {
    assert!(caught(InjectedBug::TruncateOnAnyAppend, 12).is_some());
}

#[test]
fn revealing_a_vote_before_it_is_durable_is_caught() {
    let mut cfg = hostile(49);
    cfg.raft.bug = InjectedBug::VoteBeforeSync;
    assert_eq!(run(cfg).signature(), "durable_term_lost");
    assert_eq!(run(hostile(49)).signature(), "ok");
}

#[test]
fn committing_entries_of_another_term_is_caught() {
    let found = (1..=12).any(|seed| {
        let mut cfg = hostile(seed);
        cfg.raft.bug = InjectedBug::CommitAnyTerm;
        cfg.raft.max_batch = 2;
        run(cfg).signature() == "commit_of_foreign_term"
    });
    assert!(found);
}

#[test]
fn losing_a_majority_breaks_no_promise() {
    let mut cfg = hostile(3);
    cfg.faults.allow_quorum_loss = true;
    cfg.check_liveness = false;
    let out = run(cfg);
    assert!(!out.failed(), "{}", out.detail());
}

#[test]
fn five_servers_on_two_keys_stay_correct() {
    let mut cfg = hostile(4);
    cfg.servers = 5;
    cfg.workload.keys = 2;
    let out = run(cfg);
    assert!(!out.failed(), "{}", out.detail());
}

#[test]
fn a_run_out_of_fuel_is_incomplete() {
    let mut cfg = SimConfig::benign(1);
    cfg.max_events = 100;
    let out = run(cfg);
    assert!(out.incomplete && !out.failed());
    assert_eq!(out.signature(), "incomplete");
    assert_eq!(out.stats.events, 101);
    assert!(out.summary().ends_with("| incomplete"));
}

#[test]
fn a_cluster_without_clients_has_nothing_to_say() {
    let mut cfg = SimConfig::benign(2);
    cfg.clients = 0;
    let out = run(cfg);
    assert!(!out.failed(), "{}", out.detail());
    assert_eq!((out.stats.ops_started, out.history.len()), (0, 0));
    assert_eq!(out.signature(), "ok");
}

#[test]
fn summaries_line_up() {
    let out = run(SimConfig::benign(9));
    let s = out.stats;
    assert_eq!(
        out.summary(),
        format!(
            "seed {:>6} | {:>5} ops ({} abandoned) | {} committed | {} elections, {} leaders | \
             {} crashes, {} partitions | {} events | fp {:016x} | ok",
            9,
            s.ops_completed,
            s.ops_abandoned,
            s.max_committed,
            s.elections,
            s.leaders_elected,
            s.crashes,
            s.partitions,
            s.events,
            out.fingerprint.0
        )
    );
    assert_eq!(out.detail(), format!("{}\n", out.summary()));
}

#[test]
fn a_replay_can_be_written_down() {
    let mut cfg = SimConfig::benign(6);
    cfg.duration = SECONDS;
    cfg.settle = SECONDS;
    cfg.drain = SECONDS;
    let r = replay(cfg, Level::Info, 1);
    assert_eq!(
        r.render(),
        format!(
            "{}\ndeterminism: 2 runs agreed on fingerprint {:016x}\n",
            r.outcome.detail(),
            r.fingerprint.0
        )
    );
    let file = r.trace_file();
    assert!(file.starts_with("# seed 6\n# fingerprint "));
    assert!(file.ends_with(&r.trace));
    assert_eq!(r.outcome.trace.as_deref(), Some(r.trace.as_str()));
}

#[test]
fn shrinking_keeps_the_failure_and_drops_the_rest() {
    let out = caught(InjectedBug::TruncateOnAnyAppend, 12).expect("the defect must be seen");
    let mut lines = vec![];
    let r = shrink(out.config, 6, |s| lines.push(s.to_string())).expect("it fails");
    assert_eq!(r.signature, out.signature());
    assert_eq!(r.outcome.signature(), out.signature());
    assert!(r.outcome.failed());
    assert!(r.attempts <= 6 && r.steps == r.removed.len());
    assert_eq!(
        lines[0],
        format!("shrinking seed {} failing as [{}]", out.seed, r.signature)
    );
    for removed in &r.removed {
        assert!(lines.contains(&format!("  kept: {removed}")));
    }
    assert!(r.render().contains(&describe(&r.minimal)));
    let again = run(r.minimal);
    assert_eq!(again.fingerprint, r.outcome.fingerprint);
}

#[test]
fn recording_in_any_order_gives_the_same_sweep() {
    let outcomes: Vec<RunOutcome> = (1..=3)
        .map(|seed| {
            let mut cfg = hostile(seed);
            cfg.raft.bug = InjectedBug::TruncateOnAnyAppend;
            run(cfg)
        })
        .collect();
    let record = |order: [usize; 3]| {
        let mut r = SweepResult::default();
        for i in order {
            r.record(&outcomes[i], 0, false);
        }
        r.render()
    };
    assert_eq!(record([0, 1, 2]), record([2, 0, 1]));
    assert_eq!(record([0, 1, 2]), record([1, 2, 0]));
}

#[test]
fn a_sweep_stops_once_enough_has_failed() {
    let mut base = hostile(0);
    base.raft.bug = InjectedBug::TruncateOnAnyAppend;
    let r = sweep(SweepConfig {
        base,
        count: 30,
        stop_after: 1,
        ..SweepConfig::on_threads(1)
    });
    assert_eq!(r.failures.len(), 1);
    assert!(r.runs < 30);
    assert!(r.render().contains("1 FAILING SEEDS:"));
    assert!(r.render().contains(&format!(
        "reproduce with: sim replay --seed <{}>",
        r.failures[0].seed
    )));
}

#[test]
fn a_clean_sweep_says_so() {
    let mut r = SweepResult::default();
    let mut cfg = SimConfig::benign(1);
    cfg.duration = SECONDS;
    let out = run(cfg);
    let recorded = r.record(&out, 1, true);
    assert_eq!(recorded.line, Some(out.summary()));
    assert!(!recorded.stop);
    r.elapsed = 2_500_000_000;
    r.events = 1_250_000;
    r.ops_completed = 77;
    assert_eq!(
        r.render(),
        "1 runs in 2.5s (0 runs/s, 1.2M events, 77 ops completed)\nno failures\n"
    );
    assert!(r.passed());
    // Halfway between two in binary, the even one is shown.
    r.elapsed = 250_000_000;
    r.events = 1_350_000;
    assert!(r.render().starts_with("1 runs in 0.2s (4 runs/s, 1.4M events, "));
    for (nanos, events) in [(350_000_000, 1_150_000), (150_000_000, 2_050_000), (1, 49_999)] {
        r.elapsed = nanos;
        r.events = events;
        let secs = Duration::from_nanos(nanos).as_secs_f64();
        let rate = 1.0 / secs.max(1e-9);
        let millions = events as f64 / 1e6;
        assert!(r
            .render()
            .starts_with(&format!("1 runs in {secs:.1}s ({rate:.0} runs/s, {millions:.1}M events, ")));
    }
}

#[test]
fn an_empty_cluster_passes_the_time() {
    let mut cfg = SimConfig::benign(3);
    cfg.servers = 0;
    cfg.clients = 0;
    let out = run(cfg);
    assert!(!out.failed(), "{}", out.detail());
    assert_eq!((out.stats.elections, out.history.len()), (0, 0));
    assert_eq!(out.stats.sim_time, cfg.total_time());
}

#[test]
fn no_more_workers_than_seeds() {
    let with = |threads: usize, count: u64| {
        SweepConfig {
            count,
            ..SweepConfig::on_threads(threads)
        }
        .workers()
    };
    assert_eq!((with(4, 100), with(4, 2), with(0, 5), with(3, 0)), (4, 2, 1, 1));
}
