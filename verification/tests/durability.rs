//! The check of what the disks hold.

use simkv::checker::durability::{
    check_committed_durable, check_convergence, check_recovery_is_a_prefix, check_term_durable, recover,
    CommittedEntry, DiskView,
};
use simkv::kvstore::raft::LOG_REGION;
use simkv::kvstore::recovery::{HardState, SLOT_SIZE};
use simkv::kvstore::table::KeyTable;
use simkv::kvstore::{Command, Entry, Op};
use simkv::simcore::NodeId;

fn cmd(seq: u64) -> Command {
    Command {
        client: 1,
        seq,
        op: Op::Put {
            key: "k".into(),
            value: format!("v{seq}"),
        },
    }
}

fn entry(index: u64, term: u64) -> Entry {
    Entry {
        term,
        index,
        cmd: cmd(index),
    }
}

/// Build a durable image the way a node would write one.
fn image(term: u64, entries: &[Entry]) -> Vec<u8> {
    let hs = HardState {
        term,
        voted_for: None,
        seq: 1,
    };
    let mut bytes = vec![0u8; LOG_REGION];
    let off = HardState::slot_offset(hs.seq);
    bytes[off..off + SLOT_SIZE].copy_from_slice(&hs.to_slot());
    for e in entries {
        bytes.extend_from_slice(&e.to_record());
    }
    bytes
}

fn disk(id: u32, term: u64, entries: &[Entry]) -> DiskView {
    DiskView {
        id: NodeId(id),
        bytes: image(term, entries),
    }
}

fn committed(entries: &[Entry]) -> Vec<CommittedEntry> {
    entries
        .iter()
        .map(|e| CommittedEntry {
            index: e.index,
            term: e.term,
            cmd: e.cmd.clone(),
        })
        .collect()
}

#[test]
fn recovery_round_trips_a_clean_image() {
    let entries = vec![entry(1, 1), entry(2, 1), entry(3, 2)];
    let r = recover(&image(2, &entries));
    assert_eq!(r.term, 2);
    assert_eq!(r.entries, entries);
    assert_eq!(r.last_index(), 3);
}

#[test]
fn recovery_drops_entries_ahead_of_the_durable_term() {
    // Term 3 entries survived on disk but the term update did not: they
    // were never acknowledged, so they must be discarded.
    let entries = vec![entry(1, 1), entry(2, 3)];
    let r = recover(&image(1, &entries));
    assert_eq!(r.entries, vec![entry(1, 1)]);
}

#[test]
fn an_empty_disk_recovers_to_nothing() {
    let r = recover(&[]);
    assert_eq!(r.term, 0);
    assert!(r.entries.is_empty());
    assert_eq!(r.get(1), None);
}

#[test]
fn a_quorum_holding_the_entry_passes() {
    let entries = vec![entry(1, 1), entry(2, 1)];
    let disks = vec![
        disk(0, 1, &entries),
        disk(1, 1, &entries),
        disk(2, 1, &entries[..1]),
    ];
    assert!(check_committed_durable(0, &committed(&entries), &disks, 3).is_empty());
}

#[test]
fn a_committed_entry_on_a_minority_is_a_violation() {
    let entries = vec![entry(1, 1), entry(2, 1)];
    let disks = vec![
        disk(0, 1, &entries),
        disk(1, 1, &entries[..1]),
        disk(2, 1, &entries[..1]),
    ];
    let v = check_committed_durable(0, &committed(&entries), &disks, 3);
    assert_eq!(v.len(), 1);
    assert_eq!(v[0].kind, "committed_not_durable");
    assert!(v[0].detail.contains("only 1 of 3"));
}

#[test]
fn a_durable_entry_contradicting_a_committed_one_is_caught() {
    let good = vec![entry(1, 1), entry(2, 1)];
    let mut bad = good.clone();
    bad[1] = Entry {
        term: 2,
        index: 2,
        cmd: cmd(99),
    };
    let disks = vec![disk(0, 1, &good), disk(1, 1, &good), disk(2, 2, &bad)];
    let v = check_committed_durable(0, &committed(&good), &disks, 3);
    assert!(v.iter().any(|x| x.kind == "durable_conflict"), "got {v:?}");
}

#[test]
fn losing_the_unsynced_tail_is_legal_recovery() {
    let before = vec![entry(1, 1), entry(2, 1), entry(3, 1)];
    let after = &before[..1];
    assert!(check_recovery_is_a_prefix(0, NodeId(0), &before, after).is_empty());
}

#[test]
fn recovering_a_changed_entry_is_caught() {
    let before = vec![entry(1, 1), entry(2, 1)];
    let after = vec![entry(1, 1), Entry { term: 5, index: 2, cmd: cmd(2) }];
    let v = check_recovery_is_a_prefix(0, NodeId(0), &before, &after);
    assert_eq!(v[0].kind, "recovery_not_a_prefix");
}

#[test]
fn recovering_more_than_was_there_is_caught() {
    let before = vec![entry(1, 1)];
    let after = vec![entry(1, 1), entry(2, 1)];
    let v = check_recovery_is_a_prefix(0, NodeId(0), &before, &after);
    assert_eq!(v[0].kind, "recovery_grew");
}

#[test]
fn a_lost_durable_term_is_caught() {
    let d = disk(0, 3, &[]);
    assert!(check_term_durable(0, NodeId(0), 3, &d).is_empty());
    let v = check_term_durable(0, NodeId(0), 4, &d);
    assert_eq!(v[0].kind, "durable_term_lost");
}

#[test]
fn convergence_compares_only_equally_advanced_replicas() {
    let mut a: KeyTable<String> = KeyTable::new();
    a.insert("k".to_string(), "1".to_string());
    let mut b: KeyTable<String> = KeyTable::new();
    b.insert("k".to_string(), "2".to_string());
    // Different applied counts: one is simply behind.
    assert!(check_convergence(0, &[(NodeId(0), 5, &a), (NodeId(1), 3, &b)]).is_empty());
    // Same applied count, different data: a real divergence.
    let v = check_convergence(0, &[(NodeId(0), 5, &a), (NodeId(1), 5, &b)]);
    assert_eq!(v[0].kind, "replicas_diverged");
    // Agreement passes.
    assert!(check_convergence(0, &[(NodeId(0), 5, &a), (NodeId(1), 5, &a)]).is_empty());
}
