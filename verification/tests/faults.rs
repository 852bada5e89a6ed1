//! Fault injection.

use simkv::simcore::faults::{ClockSkew, FaultAction, FaultConfig, FaultHint, FaultInjector};
use simkv::simcore::rng::Rng;
use simkv::simcore::Nanos;

fn cfg_all_on() -> FaultConfig {
    FaultConfig {
        window: (0, Nanos::MAX / 2),
        ..FaultConfig::default()
    }
}

#[test]
fn no_faults_when_disabled() {
    let mut inj = FaultInjector::new(FaultConfig::none());
    let mut rng = Rng::new(1);
    for t in 0..1000 {
        assert_eq!(
            inj.decide(&mut rng, t, &[true; 3], &FaultHint::default()),
            None
        );
    }
}

#[test]
fn faults_respect_the_window() {
    let cfg = FaultConfig {
        window: (100, 200),
        ..FaultConfig::default()
    };
    let mut inj = FaultInjector::new(cfg);
    let mut rng = Rng::new(1);
    assert_eq!(
        inj.decide(&mut rng, 50, &[true; 5], &FaultHint::default()),
        None
    );
    let during: Vec<_> = (100..200)
        .filter_map(|t| inj.decide(&mut rng, t, &[true; 5], &FaultHint::default()))
        .collect();
    assert!(!during.is_empty(), "expected faults inside the window");
    assert_eq!(
        inj.decide(&mut rng, 250, &[true; 5], &FaultHint::default()),
        Some(FaultAction::Recover)
    );
    assert_eq!(
        inj.decide(&mut rng, 260, &[true; 5], &FaultHint::default()),
        None
    );
}

#[test]
fn never_crashes_past_a_minority() {
    let mut inj = FaultInjector::new(cfg_all_on());
    let mut rng = Rng::new(7);
    let mut up = [true; 5];
    for t in 0..20_000 {
        match inj.decide(&mut rng, t, &up, &FaultHint::default()) {
            Some(FaultAction::Crash(n)) => up[n.idx()] = false,
            Some(FaultAction::Restart(n)) => up[n.idx()] = true,
            _ => {}
        }
        let down = up.iter().filter(|u| !**u).count();
        assert!(down <= 2, "quorum lost: {down} of 5 down");
    }
}

#[test]
fn quorum_loss_is_reachable_when_allowed() {
    let cfg = FaultConfig {
        allow_quorum_loss: true,
        ..cfg_all_on()
    };
    let mut inj = FaultInjector::new(cfg);
    let mut rng = Rng::new(7);
    let mut up = [true; 3];
    let mut saw_majority_down = false;
    for t in 0..20_000 {
        match inj.decide(&mut rng, t, &up, &FaultHint::default()) {
            Some(FaultAction::Crash(n)) => up[n.idx()] = false,
            Some(FaultAction::Restart(n)) => up[n.idx()] = true,
            _ => {}
        }
        if up.iter().filter(|u| !**u).count() >= 2 {
            saw_majority_down = true;
        }
        assert!(up.iter().any(|u| *u), "at least one node stays up");
    }
    assert!(saw_majority_down);
}

#[test]
fn crashes_only_target_live_nodes() {
    let mut inj = FaultInjector::new(cfg_all_on());
    let mut rng = Rng::new(3);
    let up = [true, false, true, true, false];
    for t in 0..5_000 {
        match inj.decide(&mut rng, t, &up, &FaultHint::default()) {
            Some(FaultAction::Crash(n)) => assert!(up[n.idx()]),
            Some(FaultAction::Restart(n)) => assert!(!up[n.idx()]),
            _ => {}
        }
    }
}

#[test]
fn partitions_are_a_proper_split() {
    let mut inj = FaultInjector::new(cfg_all_on());
    let mut rng = Rng::new(5);
    let mut seen = 0;
    for t in 0..5_000 {
        if let Some(FaultAction::Partition(groups)) =
            inj.decide(&mut rng, t, &[true; 5], &FaultHint::default())
        {
            seen += 1;
            assert_eq!(groups.len(), 2);
            assert!(!groups[0].is_empty() && !groups[1].is_empty());
            let total: usize = groups.iter().map(|g| g.len()).sum();
            assert_eq!(total, 5, "every node lands in exactly one group");
            let mut all: Vec<u32> = groups.iter().flatten().map(|n| n.0).collect();
            all.sort();
            assert_eq!(all, vec![0, 1, 2, 3, 4]);
        }
    }
    assert!(seen > 10, "expected partitions, saw {seen}");
}

#[test]
fn clock_skew_applies_offset_and_drift() {
    let s = ClockSkew {
        offset: -1000,
        drift_ppm: 1_000_000,
    };
    // Doubling drift: 5000 true -> 5000 + 5000 - 1000.
    assert_eq!(s.apply(5000), 9000);
    // Never negative.
    let s2 = ClockSkew {
        offset: -10_000,
        drift_ppm: 0,
    };
    assert_eq!(s2.apply(100), 0);
}

#[test]
fn decisions_are_deterministic() {
    let run = || {
        let mut inj = FaultInjector::new(cfg_all_on());
        let mut rng = Rng::new(1234);
        (0..2000)
            .filter_map(|t| {
                inj.decide(
                    &mut rng,
                    t,
                    &[true, true, false, true, true],
                    &FaultHint::default(),
                )
            })
            .map(|a| format!("{a:?}"))
            .collect::<Vec<_>>()
    };
    assert_eq!(run(), run());
}
