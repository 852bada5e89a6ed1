//! What a node sees through its capabilities.

use simkv::sim_io::{Clock, Io, Net, SimIo, Storage, FILE_WAL};
use simkv::simcore::faults::FaultConfig;
use simkv::simcore::scheduler::Event;
use simkv::simcore::{NodeId, World, WorldConfig, MILLIS};

fn world() -> World {
    World::new(WorldConfig {
        nodes: 3,
        seed: 5,
        faults: FaultConfig::none(),
        ..WorldConfig::default()
    })
}

#[test]
fn io_is_object_safe() {
    let mut io = SimIo::new(world(), NodeId(0));
    let dynamic: &mut dyn Io = &mut io;
    dynamic.send(NodeId(1), b"hello");
    assert_eq!(dynamic.me(), NodeId(0));
}

#[test]
fn timers_fire_with_their_tag() {
    let mut io = SimIo::new(world(), NodeId(1));
    io.set_timer(10 * MILLIS, 0xbeef);
    let mut w = io.into_world();
    match w.sched.next().unwrap().event {
        Event::Timer { node, timer } => {
            assert_eq!(node, NodeId(1));
            assert_eq!(timer, 0xbeef);
        }
        other => panic!("unexpected {other:?}"),
    }
}

#[test]
fn cancelled_timers_never_arrive() {
    let mut io = SimIo::new(world(), NodeId(1));
    let h = io.set_timer(10 * MILLIS, 1);
    io.cancel_timer(h);
    let mut w = io.into_world();
    assert!(w.sched.next().is_none());
}

#[test]
fn a_node_sees_its_own_writes_before_they_are_durable() {
    let mut io = SimIo::new(world(), NodeId(0));
    io.append(FILE_WAL, b"entry");
    assert_eq!(io.read_all(FILE_WAL), b"entry");
    assert_eq!(io.size(FILE_WAL), 5);
}

#[test]
fn nodes_see_skewed_clocks() {
    let mut w = World::new(WorldConfig {
        nodes: 3,
        seed: 42,
        ..WorldConfig::default()
    });
    w.clock_jump(NodeId(0), 1_000_000);
    let mut io = SimIo::new(w, NodeId(0));
    let a = io.now();
    io.rebind(NodeId(1));
    let b = io.now();
    assert_ne!(a, b, "a jumped clock must be visible to that node only");
}

#[test]
fn self_sends_are_dropped() {
    let mut io = SimIo::new(world(), NodeId(0));
    io.send(NodeId(0), b"loopback");
    let mut w = io.into_world();
    assert!(w.sched.next().is_none());
}
