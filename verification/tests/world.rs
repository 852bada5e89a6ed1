//! The world as a whole.

use simkv::simcore::disk::DiskConfig;
use simkv::simcore::faults::FaultConfig;
use simkv::simcore::{Nanos, NodeId, World, WorldConfig};

fn world(seed: u64) -> World {
    World::new(WorldConfig {
        nodes: 3,
        seed,
        faults: FaultConfig::none(),
        ..WorldConfig::default()
    })
}

#[test]
fn crashed_nodes_cannot_send_or_receive() {
    let mut w = world(1);
    w.crash_node(NodeId(0));
    assert_eq!(w.send(NodeId(0), NodeId(1), b"x"), 0);
    assert!(!w.accept_delivery(NodeId(1), NodeId(0)));
    w.restart_node(NodeId(0));
    assert_eq!(w.send(NodeId(0), NodeId(1), b"x"), 1);
}

#[test]
fn crash_discards_pending_timers_and_io() {
    let mut w = world(2);
    w.set_timer(NodeId(0), 100, 7);
    w.set_timer(NodeId(1), 100, 7);
    w.disk_append(NodeId(0), 0, b"data");
    assert_eq!(w.sched.pending(), 3);
    w.crash_node(NodeId(0));
    assert_eq!(w.sched.pending(), 1, "only n1's timer should remain");
}

#[test]
fn unsynced_writes_do_not_survive_a_crash() {
    let mut w = World::new(WorldConfig {
        nodes: 1,
        seed: 3,
        disk: DiskConfig {
            lost_write_ppm: 1_000_000,
            ..DiskConfig::default()
        },
        faults: FaultConfig::none(),
        ..WorldConfig::default()
    });
    w.disk_append(NodeId(0), 0, b"hello");
    assert_eq!(w.disk_read(NodeId(0), 0), b"hello");
    w.crash_node(NodeId(0));
    assert!(w.disk_read(NodeId(0), 0).is_empty());
}

#[test]
fn incarnation_advances_on_crash() {
    let mut w = world(4);
    assert_eq!(w.incarnation(NodeId(0)), 0);
    w.crash_node(NodeId(0));
    w.restart_node(NodeId(0));
    assert_eq!(w.incarnation(NodeId(0)), 1);
}

#[test]
fn node_clocks_disagree_but_are_stable() {
    let w = World::new(WorldConfig {
        nodes: 5,
        seed: 12345,
        ..WorldConfig::default()
    });
    let times: Vec<Nanos> = w.all_nodes().into_iter().map(|n| w.node_now(n)).collect();
    // With skew enabled at t=0 the offsets differ, but each node's view is
    // a pure function of true time, so reading twice agrees.
    let again: Vec<Nanos> = w.all_nodes().into_iter().map(|n| w.node_now(n)).collect();
    assert_eq!(times, again);
    assert!(times.iter().any(|t| *t != times[0]) || w.clock_skew(NodeId(0)).offset == 0);
}

#[test]
fn the_same_seed_produces_the_same_world() {
    let script = |seed: u64| {
        let mut w = world(seed);
        for i in 0..200u64 {
            let from = NodeId((i % 3) as u32);
            let to = NodeId(((i + 1) % 3) as u32);
            w.send(from, to, &i.to_le_bytes());
            w.disk_append(to, 0, &i.to_le_bytes());
            if i % 17 == 0 {
                w.disk_sync(to, 0);
            }
            if let Some(f) = w.sched.next() {
                w.trace.observe(f.time, f.event.target(), f.event.tag(), &[f.id]);
            }
        }
        w.fingerprint()
    };
    assert_eq!(script(777), script(777));
    assert_ne!(script(777), script(778));
}
