//! The library's general promises, each on concrete values.

use simkv::checker::durability::{
    check_committed_durable, check_convergence, check_durable_claim, check_recovery, recover, CommittedEntry, DiskView,
};
use simkv::checker::invariants::{Invariants, NodeView};
use simkv::checker::{Report, Violation};
use simkv::kvstore::persist::{BatchEvent, Persist, Persister, Span};
use simkv::kvstore::raft::LOG_REGION;
use simkv::kvstore::recovery::{
    pick_snapshot, recover_log, recover_log_any_start, recover_log_from, HardState, Snapshot, SLOT_SIZE,
};
use simkv::kvstore::table::KeyTable;
use simkv::kvstore::{Command, Entry, Op, RaftLog, Role};
use simkv::sim_io::storage::{snapshot_file, Completion, PendingOps, FILE_SNAPSHOT_A, FILE_SNAPSHOT_B};
use simkv::simcore::disk::{Disk, DiskConfig};
use simkv::simcore::faults::FaultConfig;
use simkv::simcore::net::{NetConfig, Network};
use simkv::simcore::rng::Rng;
use simkv::simcore::scheduler::{Event, Scheduler};
use simkv::simcore::trace::{Level, Trace};
use simkv::simcore::{NodeId, World, WorldConfig};

fn entry(index: u64, term: u64) -> Entry {
    Entry {
        term,
        index,
        cmd: Command {
            client: 1,
            seq: index,
            op: Op::Put {
                key: "k".to_string(),
                value: format!("v{index}"),
            },
        },
    }
}

fn image(term: u64, entries: &[Entry]) -> Vec<u8> {
    let hs = HardState {
        term,
        voted_for: Some(NodeId(1)),
        seq: 2,
    };
    let mut bytes = vec![0u8; LOG_REGION];
    let off = HardState::slot_offset(hs.seq);
    bytes[off..off + SLOT_SIZE].copy_from_slice(&hs.to_slot());
    for e in entries {
        bytes.extend_from_slice(&e.to_record());
    }
    bytes
}

fn disk(id: u32, term: u64, entries: &[Entry]) -> DiskView {
    DiskView {
        id: NodeId(id),
        bytes: image(term, entries),
    }
}

#[test]
fn a_disk_recovers_to_its_term_vote_and_log() {
    let r = recover(&image(3, &[entry(1, 1), entry(2, 3)]));
    assert_eq!((r.term, r.voted_for), (3, Some(NodeId(1))));
    assert_eq!(r.last_index(), 2);
    assert_eq!(r.get(2), Some(&entry(2, 3)));
    assert_eq!(r.get(0), None);
    assert_eq!(r.get(3), None);
}

#[test]
fn what_was_synced_must_come_back() {
    let before = [entry(1, 1), entry(2, 1), entry(3, 1)];
    assert!(check_recovery(9, NodeId(0), &before, 2, &before[..2]).is_empty());
    let v = check_recovery(9, NodeId(0), &before, 3, &before[..2]);
    assert_eq!((v.len(), v[0].kind), (1, "durable_entry_lost"));
    assert!(v[0].detail.starts_with("index 3 (term 1 "));
    let changed = [entry(1, 1), entry(2, 2)];
    assert_eq!(
        check_recovery(9, NodeId(0), &before, 2, &changed)[0].kind,
        "durable_entry_lost"
    );
    // Entries resurrected beyond what was synced are legal.
    let longer = [entry(1, 1), entry(2, 1), entry(3, 1), entry(4, 1)];
    assert!(check_recovery(9, NodeId(0), &before, 3, &longer).is_empty());
}

#[test]
fn a_durability_claim_needs_the_bytes() {
    let log = [entry(1, 1), entry(2, 1)];
    let full = disk(0, 1, &log);
    assert!(check_durable_claim(0, NodeId(0), &log, 2, &full).is_empty());
    let short = disk(0, 1, &log[..1]);
    assert!(check_durable_claim(0, NodeId(0), &log, 1, &short).is_empty());
    let v = check_durable_claim(0, NodeId(0), &log, 2, &short);
    assert_eq!((v.len(), v[0].kind), (1, "durable_claim_unbacked"));
    assert!(v[0].detail.contains("durable through index 2"));
}

#[test]
fn a_missing_quorum_is_reported_once_and_in_full() {
    let log = [entry(1, 1), entry(2, 1)];
    let committed: Vec<CommittedEntry> = log
        .iter()
        .map(|e| CommittedEntry {
            index: e.index,
            term: e.term,
            cmd: e.cmd.clone(),
        })
        .collect();
    let disks = [disk(0, 1, &log), disk(1, 1, &[]), disk(2, 1, &[])];
    let v = check_committed_durable(7, &committed, &disks, 3);
    assert_eq!(v.len(), 1);
    assert_eq!(
        v[0].detail,
        "committed index 1 (term 1) is on stable storage on only 1 of 3 nodes; a quorum is 2"
    );
}

#[test]
fn diverged_replicas_show_the_first_differences() {
    let mut a: KeyTable<String> = KeyTable::new();
    let mut b: KeyTable<String> = KeyTable::new();
    for i in 0..6 {
        a.insert(format!("k{i}"), "x".to_string());
    }
    b.insert("k0".to_string(), "x".to_string());
    b.insert("k1".to_string(), "y".to_string());
    let v = check_convergence(0, &[(NodeId(0), 9, &a), (NodeId(1), 9, &b)]);
    assert_eq!(v.len(), 1);
    assert_eq!(
        v[0].detail,
        "after applying 9 entries, n1 disagrees with n0: \
         k1=\"x\" vs Some(\"y\"), k2=\"x\" vs None, k3=\"x\" vs None, k4=\"x\" vs None"
    );
}

#[test]
fn tables_list_their_rows_in_key_order() {
    let mut t: KeyTable<u64> = KeyTable::new();
    for (i, k) in ["b", "a", "c", "a"].iter().enumerate() {
        t.insert(k.to_string(), i as u64);
    }
    let keys: Vec<&str> = t.rows().iter().map(|r| r.0.as_str()).collect();
    assert_eq!(keys, ["a", "b", "c"]);
    assert_eq!((t.get("a"), t.len()), (Some(&3), 3));
    t.remove("a");
    assert_eq!((t.get("a"), t.len(), t.is_empty()), (None, 2, false));
}

#[test]
fn a_compacted_log_keeps_what_lies_beyond() {
    let mut log = RaftLog::from_entries((1..=5).map(|i| entry(i, 1)).collect());
    log.compact_to(3, 1);
    assert_eq!((log.snapshot_index(), log.snapshot_term()), (3, 1));
    assert_eq!((log.first_index(), log.last_index()), (4, 5));
    assert!(log.get(3).is_none());
    assert_eq!(log.get(4), Some(&entry(4, 1)));
    assert_eq!(log.term_at(3), Some(1));
    assert_eq!(log.slice_from(4, 1), vec![entry(4, 1)]);
    let tail: Vec<u8> = log.entries().iter().flat_map(|e| e.to_record()).collect();
    assert_eq!(recover_log_any_start(&tail).entries, vec![entry(4, 1), entry(5, 1)]);
    assert_eq!(recover_log_from(&tail, 4).entries.len(), 2);
    assert!(recover_log(&tail).entries.is_empty());
    assert_eq!(log.last_index_with_term_at_most(0), 3);
}

#[test]
fn snapshots_round_trip_and_the_one_covering_more_wins() {
    let snap = |seq: u64, index: u64| Snapshot {
        seq,
        index,
        term: 2,
        data: vec![7; index as usize],
    };
    let (a, b) = (snap(1, 4), snap(2, 9));
    assert_eq!(Snapshot::decode(&a.encode()), Some(a.clone()));
    assert_eq!(pick_snapshot(&a.encode(), &b.encode()), Some(b.clone()));
    assert_eq!(pick_snapshot(&b.encode(), &a.encode()), Some(b));
    assert_eq!(pick_snapshot(&[], &[]), None);
    assert_eq!(snapshot_file(4), FILE_SNAPSHOT_A);
    assert_eq!(snapshot_file(5), FILE_SNAPSHOT_B);
}

#[test]
fn large_snapshots_round_trip_and_torn_ones_do_not() {
    let s = Snapshot {
        seq: 3,
        index: 8,
        term: 2,
        data: (0..(2u32 << 20)).map(|i| i as u8).collect(),
    };
    let bytes = s.encode();
    for cut in [0, 7, 8, 100, 1 << 20, bytes.len() - 1] {
        assert_eq!(Snapshot::decode(&bytes[..cut]), None);
    }
    assert_eq!(Snapshot::decode(&bytes), Some(s));
}

#[test]
fn a_torn_write_never_lands_whole() {
    let cfg = DiskConfig {
        torn_write_ppm: 1_000_000,
        ..DiskConfig::default()
    };
    for len in [1usize, 2, 511, 512, 513, 1024, 1536, 4096] {
        let bytes: Vec<u8> = (0..len).map(|i| i as u8 | 1).collect();
        for seed in 0..300 {
            let mut d = Disk::new(cfg);
            let mut r = Rng::new(seed);
            d.append(&mut r, 0, &bytes);
            d.crash(&mut r);
            let after = d.read_all(0);
            assert!(after.len() < len, "{len} bytes landed whole");
            assert!(bytes.starts_with(&after));
        }
    }
}

#[test]
fn a_batch_reports_what_it_covered() {
    let mut p = Persister::default();
    let span = Span {
        first: 4,
        agreed: 6,
        term: 0,
        seq: 0,
    };
    let b = p.start_span(
        Persist::LogDurable {
            index: 6,
            reply_to: Some(NodeId(1)),
            reply_term: 2,
        },
        span,
    );
    p.note_state(b, 5, 9);
    p.note_write(b, 1);
    assert_eq!(p.complete(1, true).0, BatchEvent::NeedSync(b));
    p.note_sync(b, 2);
    let (event, covered) = p.complete(2, true);
    assert!(matches!(event, BatchEvent::Done(Persist::LogDurable { index: 6, .. })));
    assert_eq!((covered.first, covered.agreed), (4, 6));
    assert_eq!((covered.term, covered.seq), (5, 9));
}

#[test]
fn operations_in_flight_complete_once() {
    let mut p: PendingOps<&str> = PendingOps::new();
    p.insert(4, "a");
    p.insert(9, "b");
    assert_eq!(p.iter().len(), 2);
    assert_eq!((p.take(9), p.take(9)), (Some("b"), None));
    let done = Completion {
        op: 4,
        result: simkv::simcore::disk::IoResult::Done,
    };
    assert!(done.ok());
}

#[test]
fn an_event_is_seen_before_it_fires_and_only_then_is_time() {
    let mut s = Scheduler::new();
    let id = s.at(40, Event::App { tag: 1, arg: 0 });
    s.at(50, Event::App { tag: 2, arg: 0 });
    assert_eq!((s.peek_time(), s.now(), s.pending()), (Some(40), 0, 2));
    s.cancel(id);
    assert!(s.is_cancelled(id));
    // A cancelled event is not what happens next.
    assert_eq!((s.peek_time(), s.pending()), (Some(50), 2));
    assert_eq!(s.next().unwrap().time, 50);
    assert_eq!((s.fired_count(), s.is_empty(), s.peek_time()), (1, true, None));
    let last = s.at(55, Event::App { tag: 3, arg: 0 });
    s.cancel(last);
    assert_eq!(s.peek_time(), None);
    assert!(s.next().is_none());
    s.advance_to(45);
    assert_eq!(s.now(), 50);
    s.advance_to(60);
    assert_eq!(s.now(), 60);
}

#[test]
fn a_crash_leaves_only_what_was_synced_where_every_write_is_lost() {
    let cfg = DiskConfig {
        lost_write_ppm: 1_000_000,
        ..DiskConfig::default()
    };
    let mut d = Disk::new(cfg);
    let mut r = Rng::new(3);
    d.append(&mut r, 0, b"kept");
    d.sync(&mut r, 0);
    assert!(!d.has_unsynced(0));
    d.write_at(&mut r, 0, 2, b"lost");
    assert!(d.has_unsynced(0));
    assert_eq!(d.read_all(0), b"kelost");
    assert_eq!(d.durable_image(0), b"kept");
    d.crash(&mut r);
    assert_eq!((d.read_all(0), d.len(0)), (b"kept".to_vec(), 4));
    let s = d.stats();
    assert_eq!((s.writes, s.syncs), (2, 1));
}

#[test]
fn links_are_cut_one_way_at_a_time() {
    let n = NodeId;
    let mut net = Network::new(3, NetConfig::reliable());
    net.cut(n(0), n(1));
    assert!(net.is_blocked(n(0), n(1)) && !net.is_blocked(n(1), n(0)));
    assert_eq!(net.blocked_links(), 1);
    net.heal(n(0), n(1));
    assert_eq!(net.blocked_links(), 0);
    net.isolate(n(2));
    assert_eq!(net.blocked_links(), 4);
    let mut rng = Rng::new(1);
    let mut sched = Scheduler::new();
    assert_eq!(net.send(&mut rng, &mut sched, n(0), n(2), b"x"), 0);
    assert!(!net.accept_delivery(n(0), n(2)));
    let s = net.stats();
    assert_eq!((s.sent, s.delivered), (1, 0));
    assert_eq!(s.dropped_partition, 2);
    assert_eq!(net.latency_bounds(), NetConfig::reliable().latency);
}

#[test]
fn a_world_counts_who_is_up() {
    let mut w = World::new(WorldConfig {
        nodes: 3,
        seed: 1,
        faults: FaultConfig::none(),
        ..WorldConfig::default()
    });
    assert_eq!((w.nodes(), w.up_count(), w.seed()), (3, 3, 1));
    w.disk_append(NodeId(1), 0, b"abc");
    w.disk_sync(NodeId(1), 0);
    assert_eq!(w.durable_image(NodeId(1), 0), b"abc");
    assert!(!w.has_unsynced(NodeId(1), 0));
    w.disk_append(NodeId(1), 0, b"def");
    assert!(w.has_unsynced(NodeId(1), 0));
    w.crash_node(NodeId(1));
    assert_eq!((w.up_count(), w.up_flags()), (2, &[true, false, true][..]));
    assert!(w.disk_read(NodeId(1), 0).starts_with(b"abc"));
    assert_eq!(w.disk_stats(NodeId(1)).writes, 2);
    w.send(NodeId(0), NodeId(2), b"x");
    assert_eq!(w.net_stats().sent, 1);
}

#[test]
fn levels_filter_the_log_and_never_the_fingerprint() {
    let mut t = Trace::new(Level::Info);
    assert!(t.enabled(Level::Warn) && !t.enabled(Level::Debug));
    t.log(Level::Info, 1_500_000, Some(NodeId(1)), "raft", "hello");
    let before = t.fingerprint();
    t.set_level(Level::Off);
    t.log(Level::Error, 0, None, "raft", "unheard");
    assert_eq!((t.records().len(), t.fingerprint()), (1, before));
    assert_eq!(t.level(), Level::Off);
    assert!(t.render().contains("hello") && t.tail(5).contains("hello"));
}

#[test]
fn a_report_holds_three_of_a_kind_at_most() {
    let mut r = Report::new();
    for i in 0..5 {
        r.add(Violation::new("a", i, None, String::new()));
    }
    r.add(Violation::new("b", 9, None, String::new()));
    let times: Vec<u64> = r.violations().iter().map(|v| v.time).collect();
    assert_eq!(times, [0, 1, 2, 9]);
}

#[test]
fn what_a_node_was_heard_to_say_is_remembered() {
    let mut inv = Invariants::new();
    inv.note_sent(NodeId(0), 7);
    inv.note_sent(NodeId(0), 4);
    assert_eq!((inv.acted_term(NodeId(0)), inv.acted_term(NodeId(1))), (7, 0));
    let log = RaftLog::from_entries(vec![entry(1, 1), entry(2, 1)]);
    let view = NodeView {
        id: NodeId(1),
        up: true,
        role: Role::Leader,
        term: 1,
        log: &log,
        commit_index: 2,
        last_applied: 1,
        durable_index: 2,
        incarnation: 0,
        truncations: 0,
    };
    assert!(inv.observe(5, &[view]).is_empty());
    assert_eq!((inv.checks_run(), inv.max_committed()), (1, 2));
    let rec = inv.committed_entry(2).unwrap();
    assert_eq!((rec.term, rec.committed_in_term), (1, 1));
    assert_eq!(rec.cmd, entry(2, 1).cmd);
    assert!(inv.committed_entry(3).is_none());
}
