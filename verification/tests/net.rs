//! The simulated network.

use simkv::simcore::net::{NetConfig, Network};
use simkv::simcore::rng::Rng;
use simkv::simcore::scheduler::{Event, Scheduler};
use simkv::simcore::NodeId;

fn n(i: u32) -> NodeId {
    NodeId(i)
}

#[test]
fn messages_are_delivered_with_latency() {
    let mut net = Network::new(3, NetConfig::default());
    let mut rng = Rng::new(1);
    let mut sched = Scheduler::new();
    assert_eq!(net.send(&mut rng, &mut sched, n(0), n(1), b"hi"), 1);
    let fired = sched.next().expect("a delivery should be scheduled");
    assert!(fired.time > 0, "delivery should not be instantaneous");
    match fired.event {
        Event::Deliver { from, to, payload, .. } => {
            assert_eq!((from.0, to.0), (0, 1));
            assert_eq!(payload, b"hi");
        }
        other => panic!("unexpected event {other:?}"),
    }
}

#[test]
fn partitions_are_directional() {
    let mut net = Network::new(2, NetConfig::default());
    let mut rng = Rng::new(1);
    let mut sched = Scheduler::new();
    net.cut(n(0), n(1));
    assert_eq!(net.send(&mut rng, &mut sched, n(0), n(1), b"x"), 0);
    assert_eq!(net.send(&mut rng, &mut sched, n(1), n(0), b"x"), 1);
}

#[test]
fn isolate_cuts_both_directions() {
    let mut net = Network::new(3, NetConfig::default());
    net.isolate(n(1));
    assert!(net.is_blocked(n(1), n(0)));
    assert!(net.is_blocked(n(0), n(1)));
    assert!(!net.is_blocked(n(0), n(2)));
}

#[test]
fn partition_splits_groups() {
    let mut net = Network::new(5, NetConfig::default());
    net.partition(&[vec![n(0), n(1)], vec![n(2), n(3), n(4)]]);
    assert!(net.is_blocked(n(0), n(2)));
    assert!(net.is_blocked(n(2), n(0)));
    assert!(!net.is_blocked(n(0), n(1)));
    assert!(!net.is_blocked(n(3), n(4)));
    net.heal_all();
    assert!(!net.is_blocked(n(0), n(2)));
}

#[test]
fn in_flight_messages_die_in_a_new_partition() {
    let mut net = Network::new(2, NetConfig::default());
    let mut rng = Rng::new(1);
    let mut sched = Scheduler::new();
    net.send(&mut rng, &mut sched, n(0), n(1), b"x");
    net.cut(n(0), n(1));
    assert!(!net.accept_delivery(n(0), n(1)));
}

#[test]
fn loss_and_duplication_are_observable() {
    let cfg = NetConfig {
        drop_ppm: 300_000,
        duplicate_ppm: 300_000,
        ..NetConfig::default()
    };
    let mut net = Network::new(2, cfg);
    let mut rng = Rng::new(4);
    let mut sched = Scheduler::new();
    let mut counts = [0usize; 3];
    for _ in 0..1000 {
        counts[net.send(&mut rng, &mut sched, n(0), n(1), b"x")] += 1;
    }
    assert!(counts[0] > 200, "expected drops, got {counts:?}");
    assert!(counts[2] > 100, "expected duplicates, got {counts:?}");
}

#[test]
fn duplicates_can_overtake_the_original() {
    let cfg = NetConfig {
        duplicate_ppm: 1_000_000,
        ..NetConfig::default()
    };
    let mut net = Network::new(2, cfg);
    let mut rng = Rng::new(8);
    let mut reordered = false;
    for _ in 0..200 {
        let mut sched = Scheduler::new();
        net.send(&mut rng, &mut sched, n(0), n(1), b"x");
        let first = sched.next().unwrap();
        let second = sched.next().unwrap();
        // Copies are numbered in send order; a later id arriving first is
        // a reordering.
        if let (Event::Deliver { msg: a, .. }, Event::Deliver { msg: b, .. }) =
            (&first.event, &second.event)
        {
            if a > b {
                reordered = true;
                break;
            }
        }
    }
    assert!(reordered, "duplicates should sometimes arrive out of order");
}

#[test]
fn corruption_flips_exactly_one_bit() {
    let cfg = NetConfig {
        corrupt_ppm: 1_000_000,
        ..NetConfig::default()
    };
    let mut net = Network::new(2, cfg);
    let mut rng = Rng::new(2);
    let mut sched = Scheduler::new();
    let original = b"abcdefgh";
    net.send(&mut rng, &mut sched, n(0), n(1), original);
    match sched.next().unwrap().event {
        Event::Deliver { payload, .. } => {
            let diff: u32 = payload
                .iter()
                .zip(original)
                .map(|(a, b)| (a ^ b).count_ones())
                .sum();
            assert_eq!(diff, 1);
        }
        other => panic!("unexpected {other:?}"),
    }
}
