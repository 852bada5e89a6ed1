//! One server and one client, driven by hand.

use simkv::checker::linearizability::History;
use simkv::harness::workload::{Client, WorkloadConfig, TIMER_REQUEST, TIMER_THINK};
use simkv::kvstore::machine::{ClientMsg, Outcome};
use simkv::kvstore::raft_model::RaftConfig;
use simkv::kvstore::{Command, Entry, KvServer, Message, Op, RaftMsg, Role};
use simkv::sim_io::SimIo;
use simkv::simcore::faults::FaultConfig;
use simkv::simcore::scheduler::Event;
use simkv::simcore::{NodeId, World, WorldConfig};

fn world(nodes: usize) -> World {
    World::new(WorldConfig {
        nodes,
        seed: 5,
        faults: FaultConfig::none(),
        ..WorldConfig::default()
    })
}

/// Let one server deal with everything that happens to it until it leads.
fn elect(io: &mut SimIo, server: &mut KvServer) {
    for _ in 0..1000 {
        if server.raft.role() == Role::Leader {
            return;
        }
        match io.world.sched.next().expect("something must happen").event {
            Event::Timer { timer, .. } => {
                io.rebind(NodeId(0));
                server.on_timer(io, timer);
            }
            Event::Storage { op, result, .. } => {
                io.rebind(NodeId(0));
                server.on_storage(io, op, result.is_ok());
            }
            _ => {}
        }
    }
    panic!("nobody was elected");
}

fn request(req_id: u64, seq: u64) -> Vec<u8> {
    Message::Client(ClientMsg::Request {
        req_id,
        client: 3,
        seq,
        op: Op::Put {
            key: "k".to_string(),
            value: "v".to_string(),
        },
    })
    .encode()
}

/// The replies on the wire, which are taken off it.
fn replies(io: &mut SimIo, server: &mut KvServer) -> Vec<(u64, Outcome)> {
    let mut out = vec![];
    for _ in 0..200 {
        let Some(f) = io.world.sched.next() else {
            break;
        };
        match f.event {
            Event::Storage { op, result, .. } => {
                io.rebind(NodeId(0));
                server.on_storage(io, op, result.is_ok());
            }
            Event::Deliver { payload, .. } => {
                if let Ok(Message::Client(ClientMsg::Reply { req_id, outcome })) =
                    Message::decode(&payload)
                {
                    out.push((req_id, outcome));
                }
            }
            _ => {}
        }
        if out.len() == 1 {
            break;
        }
    }
    out
}

#[test]
fn a_lone_server_elects_itself_and_answers() {
    let mut io = SimIo::new(world(2), NodeId(0));
    let mut s = KvServer::recover(&mut io, NodeId(0), vec![NodeId(0)], RaftConfig::default(), 9);
    assert_eq!(s.id(), NodeId(0));
    elect(&mut io, &mut s);
    assert_eq!(s.raft.term(), 1);
    assert_eq!(s.raft.hard_state().voted_for, Some(NodeId(0)));
    io.rebind(NodeId(0));
    s.on_bytes(&mut io, NodeId(1), &request(8, 1));
    // Nothing is answered before the entry is on stable storage.
    assert!(s.state().is_empty());
    assert_eq!(replies(&mut io, &mut s), vec![(8, Outcome::Written)]);
    assert_eq!(s.state().get("k"), Some(&"v".to_string()));
    // A retry is answered from memory, and applied no second time.
    let applied = s.raft.last_applied();
    io.rebind(NodeId(0));
    s.on_bytes(&mut io, NodeId(1), &request(9, 1));
    assert_eq!(replies(&mut io, &mut s), vec![(9, Outcome::Written)]);
    assert_eq!(s.raft.last_applied(), applied);
    assert_eq!(s.stats().deduped, 1);
    assert!(!s.failed());
}

#[test]
fn a_follower_redirects() {
    let mut io = SimIo::new(world(4), NodeId(0));
    let members = vec![NodeId(0), NodeId(1), NodeId(2)];
    let mut s = KvServer::recover(&mut io, NodeId(0), members, RaftConfig::default(), 9);
    io.rebind(NodeId(0));
    s.on_bytes(&mut io, NodeId(3), &request(8, 1));
    assert_eq!(replies(&mut io, &mut s), vec![(8, Outcome::NotLeader(None))]);
    assert_eq!(s.stats().redirected, 1);
}

#[test]
fn bad_messages_are_counted_and_dropped() {
    let mut io = SimIo::new(world(2), NodeId(0));
    let mut s = KvServer::recover(&mut io, NodeId(0), vec![NodeId(0)], RaftConfig::default(), 9);
    let mut bytes = request(1, 1);
    bytes[6] ^= 0x10;
    io.rebind(NodeId(0));
    s.on_bytes(&mut io, NodeId(1), &bytes);
    assert_eq!((s.stats().bad_messages, s.stats().requests), (1, 0));
}

#[test]
fn a_failed_disk_takes_the_server_down() {
    let mut io = SimIo::new(world(1), NodeId(0));
    let mut s = KvServer::recover(&mut io, NodeId(0), vec![NodeId(0)], RaftConfig::default(), 9);
    for _ in 0..50 {
        match io.world.sched.next().expect("something must happen").event {
            Event::Timer { timer, .. } => {
                io.rebind(NodeId(0));
                s.on_timer(&mut io, timer);
            }
            Event::Storage { op, .. } => {
                io.rebind(NodeId(0));
                s.on_storage(&mut io, op, false);
                break;
            }
            _ => {}
        }
    }
    assert!(s.failed());
}

/// Hand a message to a follower and let its disk work; what it then sent.
fn tell(io: &mut SimIo, s: &mut KvServer, from: u32, msg: RaftMsg) -> Vec<RaftMsg> {
    io.rebind(NodeId(0));
    s.on_bytes(io, NodeId(from), &Message::Raft(msg).encode());
    let mut sent = vec![];
    let end = io.world.now() + 50_000_000;
    while io.world.sched.peek_time().is_some_and(|t| t < end) {
        match io.world.sched.next().unwrap().event {
            Event::Storage { op, result, .. } => {
                io.rebind(NodeId(0));
                s.on_storage(io, op, result.is_ok());
            }
            Event::Deliver { payload, .. } => {
                if let Ok(Message::Raft(m)) = Message::decode(&payload) {
                    sent.push(m);
                }
            }
            _ => {}
        }
    }
    sent
}

fn entry(index: u64, term: u64) -> Entry {
    Entry {
        term,
        index,
        cmd: Command {
            client: 1,
            seq: index,
            op: Op::Get {
                key: "k".to_string(),
            },
        },
    }
}

fn append(term: u64, prev: (u64, u64), entries: Vec<Entry>) -> RaftMsg {
    RaftMsg::AppendEntries {
        term,
        leader: NodeId(1),
        prev_index: prev.0,
        prev_term: prev.1,
        entries,
        leader_commit: 0,
    }
}

fn follower(io: &mut SimIo) -> KvServer {
    let members = vec![NodeId(0), NodeId(1), NodeId(2)];
    KvServer::recover(io, NodeId(0), members, RaftConfig::default(), 9)
}

#[test]
fn acknowledgements_cover_only_what_was_compared() {
    let mut io = SimIo::new(world(3), NodeId(0));
    let mut s = follower(&mut io);
    let three = vec![entry(1, 1), entry(2, 1), entry(3, 1)];
    let acked = |match_index: u64| {
        vec![RaftMsg::AppendEntriesResp {
            term: 1,
            success: true,
            match_index,
            conflict_index: 0,
        }]
    };
    assert_eq!(tell(&mut io, &mut s, 1, append(1, (0, 0), three)), acked(3));
    assert_eq!(s.raft.durable_index(), 3);
    // The leader compares only the first entry this time.
    assert_eq!(tell(&mut io, &mut s, 1, append(1, (1, 1), vec![])), acked(1));
    // A mismatch is no acknowledgement, and says where to look.
    let refused = tell(&mut io, &mut s, 1, append(1, (3, 9), vec![]));
    assert!(matches!(
        refused[..],
        [RaftMsg::AppendEntriesResp {
            success: false,
            conflict_index: 1,
            ..
        }]
    ));
}

#[test]
fn an_entry_of_a_later_term_than_its_message_is_stored() {
    let mut io = SimIo::new(world(3), NodeId(0));
    let mut s = follower(&mut io);
    let sent = tell(&mut io, &mut s, 1, append(1, (0, 0), vec![entry(1, 3)]));
    assert_eq!((s.raft.log().last_index(), s.raft.log().last_term()), (1, 3));
    assert_eq!((s.raft.term(), s.stats().bad_messages), (1, 0));
    // It is claimed only once a term that recovery would keep it in is durable.
    assert_eq!(s.raft.durable_index(), 0);
    assert!(matches!(
        sent[..],
        [RaftMsg::AppendEntriesResp {
            success: true,
            match_index: 0,
            ..
        }]
    ));
    tell(&mut io, &mut s, 1, append(3, (1, 3), vec![]));
    assert_eq!((s.raft.durable_term(), s.raft.durable_index()), (3, 1));
}

/// The storage operations in flight, taken off the schedule, oldest first.
fn in_flight(io: &mut SimIo) -> Vec<u64> {
    let mut ops = vec![];
    let end = io.world.now() + 50_000_000;
    while io.world.sched.peek_time().is_some_and(|t| t < end) {
        if let Event::Storage { op, .. } = io.world.sched.next().unwrap().event {
            ops.push(op);
        }
    }
    ops.sort();
    ops
}

/// A follower with two appends on their way to its disk, and their operations.
fn two_appends(io: &mut SimIo) -> (KvServer, u64, u64) {
    let mut s = follower(io);
    tell(io, &mut s, 1, append(1, (0, 0), vec![]));
    assert_eq!((s.raft.durable_term(), s.raft.durable_index()), (1, 0));
    for (prev, e) in [((0, 0), entry(1, 1)), ((1, 1), entry(2, 1))] {
        io.rebind(NodeId(0));
        let bytes = Message::Raft(append(1, prev, vec![e])).encode();
        s.on_bytes(io, NodeId(1), &bytes);
    }
    let ops = in_flight(io);
    assert_eq!(ops.len(), 2);
    (s, ops[0], ops[1])
}

/// A write is confirmed, and so is the sync that follows it.
fn confirm(io: &mut SimIo, s: &mut KvServer, write: u64) {
    io.rebind(NodeId(0));
    s.on_storage(io, write, true);
    let ops = in_flight(io);
    assert_eq!(ops.len(), 1);
    io.rebind(NodeId(0));
    s.on_storage(io, ops[0], true);
}

#[test]
fn a_range_that_is_synced_early_waits_for_what_lies_below() {
    let mut io = SimIo::new(world(3), NodeId(0));
    let (mut s, a, b) = two_appends(&mut io);
    confirm(&mut io, &mut s, b);
    assert_eq!(s.raft.durable_index(), 0);
    confirm(&mut io, &mut s, a);
    assert_eq!(s.raft.durable_index(), 2);

    let mut io = SimIo::new(world(3), NodeId(0));
    let (mut s, a, b) = two_appends(&mut io);
    confirm(&mut io, &mut s, a);
    assert_eq!(s.raft.durable_index(), 1);
    confirm(&mut io, &mut s, b);
    assert_eq!(s.raft.durable_index(), 2);
}

#[test]
fn a_failed_write_below_keeps_a_range_from_being_claimed() {
    let mut io = SimIo::new(world(3), NodeId(0));
    let (mut s, a, b) = two_appends(&mut io);
    confirm(&mut io, &mut s, b);
    io.rebind(NodeId(0));
    s.on_storage(&mut io, a, false);
    assert!(s.failed());
    assert_eq!(s.raft.durable_index(), 0);
}

#[test]
fn a_vote_is_given_once_and_to_a_complete_log() {
    let mut io = SimIo::new(world(3), NodeId(0));
    let mut s = follower(&mut io);
    tell(&mut io, &mut s, 1, append(1, (0, 0), vec![entry(1, 1)]));
    let ask = |candidate: u32, term: u64, last: (u64, u64)| RaftMsg::RequestVote {
        term,
        candidate: NodeId(candidate),
        last_index: last.0,
        last_term: last.1,
    };
    let answer = |term: u64, granted: bool| vec![RaftMsg::RequestVoteResp { term, granted }];
    assert_eq!(tell(&mut io, &mut s, 2, ask(2, 5, (0, 0))), answer(5, false));
    assert_eq!(tell(&mut io, &mut s, 2, ask(2, 5, (1, 1))), answer(5, true));
    assert_eq!(tell(&mut io, &mut s, 1, ask(1, 5, (9, 4))), answer(5, false));
    assert_eq!(tell(&mut io, &mut s, 2, ask(2, 5, (1, 1))), answer(5, true));
    assert_eq!(tell(&mut io, &mut s, 1, ask(1, 4, (9, 4))), answer(5, false));
    assert_eq!(s.raft.voted_for(), Some(NodeId(2)));
    assert_eq!((s.raft.term(), s.raft.durable_term()), (5, 5));
}

#[test]
fn nothing_is_said_in_a_term_that_is_not_durable() {
    let mut io = SimIo::new(world(3), NodeId(0));
    let mut s = follower(&mut io);
    io.rebind(NodeId(0));
    let ask = RaftMsg::RequestVote {
        term: 7,
        candidate: NodeId(1),
        last_index: 0,
        last_term: 0,
    };
    s.on_bytes(&mut io, NodeId(1), &Message::Raft(ask).encode());
    // A stale message would be answered at once, were the term not in flight.
    s.on_bytes(
        &mut io,
        NodeId(2),
        &Message::Raft(append(3, (0, 0), vec![])).encode(),
    );
    assert_eq!((s.raft.term(), s.raft.durable_term()), (7, 0));
    assert_eq!(io.world.net_stats().sent, 0);
}

fn reply(req_id: u64, outcome: Outcome) -> Vec<u8> {
    Message::Client(ClientMsg::Reply { req_id, outcome }).encode()
}

fn client(cfg: WorkloadConfig) -> Client {
    Client::new(7, NodeId(2), vec![NodeId(0), NodeId(1)], 3, cfg)
}

#[test]
fn one_operation_is_recorded_however_often_it_is_tried() {
    let mut io = SimIo::new(world(3), NodeId(2));
    let mut h = History::new();
    let mut c = client(WorkloadConfig::default());
    c.begin(&mut io, &mut h, 10);
    assert!(!c.is_idle());
    let seq = c.inflight.as_ref().unwrap().seq;
    for t in 0..3 {
        io.rebind(NodeId(2));
        c.on_timer(&mut io, &mut h, 20 + t, TIMER_REQUEST);
    }
    let f = c.inflight.as_ref().unwrap();
    assert_eq!((f.seq, f.attempts), (seq, 4));
    assert_eq!((h.len(), h.pending()), (1, 1));
    assert_eq!(c.stats().retries, 3);
    // A second operation does not begin while one is running.
    io.rebind(NodeId(2));
    c.on_timer(&mut io, &mut h, 30, TIMER_THINK);
    assert_eq!(h.len(), 1);
}

#[test]
fn only_the_answer_to_the_current_attempt_counts() {
    let mut io = SimIo::new(world(3), NodeId(2));
    let mut h = History::new();
    let mut c = client(WorkloadConfig::default());
    c.begin(&mut io, &mut h, 10);
    let id = c.inflight.as_ref().unwrap().req_id;
    io.rebind(NodeId(2));
    c.on_bytes(&mut io, &mut h, 11, &reply(id + 5, Outcome::Written));
    c.on_bytes(&mut io, &mut h, 12, b"garbage");
    assert_eq!((c.stats().stale_replies, h.pending()), (2, 1));
    // Being redirected is no answer either, and leads to the hinted server.
    let away = 1 - c.target;
    let hint = Outcome::NotLeader(Some(NodeId(away as u32)));
    c.on_bytes(&mut io, &mut h, 13, &reply(id, hint));
    assert_eq!((c.target, c.stats().redirects, h.pending()), (away, 1, 1));
    let id = c.inflight.as_ref().unwrap().req_id;
    c.on_bytes(&mut io, &mut h, 14, &reply(id, Outcome::Written));
    assert_eq!((h.completed(), c.stats().completed), (1, 1));
    assert!(c.is_idle());
    assert_eq!(h.operations()[0].completed, Some(14));
    assert_eq!(h.operations()[0].id, (7u64 << 32) | 1);
}

#[test]
fn an_abandoned_operation_stays_open() {
    let mut io = SimIo::new(world(3), NodeId(2));
    let mut h = History::new();
    let mut c = client(WorkloadConfig {
        max_attempts: 2,
        ..WorkloadConfig::default()
    });
    c.begin(&mut io, &mut h, 10);
    for _ in 0..2 {
        io.rebind(NodeId(2));
        c.on_timer(&mut io, &mut h, 20, TIMER_REQUEST);
    }
    assert!(c.is_idle());
    assert_eq!((c.stats().abandoned, h.pending()), (1, 1));
}

#[test]
fn a_stopped_client_begins_nothing() {
    let mut io = SimIo::new(world(3), NodeId(2));
    let mut h = History::new();
    let mut c = client(WorkloadConfig::default());
    c.stop();
    c.begin(&mut io, &mut h, 10);
    assert_eq!(h.len(), 0);
    c.resume();
    c.begin(&mut io, &mut h, 10);
    assert_eq!((h.len(), c.id(), c.node()), (1, 7, NodeId(2)));
}

#[test]
fn without_a_pause_the_next_operation_follows_at_once() {
    let mut io = SimIo::new(world(3), NodeId(2));
    let mut h = History::new();
    let mut c = client(WorkloadConfig {
        think_time: (0, 0),
        ..WorkloadConfig::default()
    });
    c.begin(&mut io, &mut h, 10);
    let id = c.inflight.as_ref().unwrap().req_id;
    io.rebind(NodeId(2));
    c.on_bytes(&mut io, &mut h, 14, &reply(id, Outcome::Written));
    assert_eq!((h.len(), h.completed()), (2, 1));
}
