//! Log records, recovery and hard state.

use simkv::kvstore::log::{Command, Entry, Op, RaftLog, NO_INDEX};
use simkv::kvstore::recovery::{
    pick_snapshot_with_source, recover_hard_state, recover_log, HardState, Snapshot, SLOT_SIZE, STATE_FILE_SIZE,
};
use simkv::simcore::rng::Rng;
use simkv::simcore::NodeId;

fn entry(index: u64, term: u64, key: &str) -> Entry {
    Entry {
        term,
        index,
        cmd: Command {
            client: 1,
            seq: index,
            op: Op::Put {
                key: key.into(),
                value: format!("v{index}"),
            },
        },
    }
}

fn log_bytes(entries: &[Entry]) -> Vec<u8> {
    entries.iter().flat_map(|e| e.to_record()).collect()
}

#[test]
fn entries_round_trip_through_the_file_format() {
    let entries: Vec<Entry> = (1..=20).map(|i| entry(i, 1 + i / 7, "k")).collect();
    let r = recover_log(&log_bytes(&entries));
    assert_eq!(r.entries, entries);
    assert!(!r.damaged);
    assert_eq!(r.valid_bytes, log_bytes(&entries).len());
}

#[test]
fn a_torn_tail_keeps_the_good_prefix() {
    let entries: Vec<Entry> = (1..=10).map(|i| entry(i, 1, "k")).collect();
    let full = log_bytes(&entries);
    // Every offset at which a record starts: cutting here leaves a clean,
    // merely shorter log rather than a damaged one.
    let boundaries: Vec<usize> = (0..=entries.len())
        .map(|n| log_bytes(&entries[..n]).len())
        .collect();

    for cut in 0..full.len() {
        let r = recover_log(&full[..cut]);
        // Whatever survived must be a prefix of what was written.
        assert_eq!(
            r.entries[..],
            entries[..r.entries.len()],
            "recovery invented or reordered entries at cut {cut}"
        );
        assert!(r.valid_bytes <= cut);
        if boundaries.contains(&cut) {
            assert!(!r.damaged, "a cut at record boundary {cut} is not damage");
            assert_eq!(r.valid_bytes, cut);
        } else {
            assert!(r.damaged, "a torn record at {cut} must be reported");
            // The bytes we trust stop at the last intact record.
            assert!(boundaries.contains(&r.valid_bytes));
        }
    }
}

#[test]
fn a_hole_stops_recovery() {
    // The classic lost-write shape: record 3 vanished, record 4 landed.
    let entries: Vec<Entry> = (1..=4).map(|i| entry(i, 1, "k")).collect();
    let mut bytes = log_bytes(&entries);
    let start = entries[..2]
        .iter()
        .map(|e| e.to_record().len())
        .sum::<usize>();
    let len = entries[2].to_record().len();
    for b in &mut bytes[start..start + len] {
        *b = 0;
    }
    let r = recover_log(&bytes);
    assert_eq!(r.entries.len(), 2, "must not splice across the hole");
    assert!(r.damaged);
    assert_eq!(r.valid_bytes, start);
}

#[test]
fn corruption_inside_a_record_is_caught() {
    let entries: Vec<Entry> = (1..=5).map(|i| entry(i, 1, "k")).collect();
    let base = log_bytes(&entries);
    let mut caught = 0;
    for i in 0..base.len() {
        let mut bytes = base.clone();
        bytes[i] ^= 0x40;
        let r = recover_log(&bytes);
        // Either it is detected, or the flipped byte was in a region that
        // the checksum covers and it must have been detected -- there is no
        // third option, so every entry we keep has to be genuine.
        for (n, e) in r.entries.iter().enumerate() {
            assert_eq!(e.index, n as u64 + 1);
        }
        if r.damaged || r.entries.len() < 5 {
            caught += 1;
        }
    }
    assert_eq!(caught, base.len(), "every single-byte flip must be caught");
}

#[test]
fn random_garbage_never_panics() {
    let mut rng = Rng::new(4);
    for _ in 0..5_000 {
        let n = rng.below(200) as usize;
        let mut bytes = vec![0u8; n];
        rng.fill(&mut bytes);
        let r = recover_log(&bytes);
        assert!(r.valid_bytes <= bytes.len());
    }
}

#[test]
fn log_indexing_and_matching() {
    let mut log = RaftLog::new();
    assert_eq!(log.last_index(), NO_INDEX);
    assert_eq!(log.term_at(NO_INDEX), Some(0));
    assert!(
        log.matches(NO_INDEX, 0),
        "the empty position always matches"
    );
    for i in 1..=5 {
        log.append(entry(i, 2, "k"));
    }
    assert_eq!(log.last_index(), 5);
    assert_eq!(log.last_term(), 2);
    assert_eq!(log.get(3).unwrap().index, 3);
    assert!(log.matches(3, 2));
    assert!(!log.matches(3, 1));
    assert!(!log.matches(9, 2), "an index we do not have cannot match");
}

#[test]
fn truncate_removes_the_suffix() {
    let mut log = RaftLog::new();
    for i in 1..=5 {
        log.append(entry(i, 1, "k"));
    }
    log.truncate_from(3);
    assert_eq!(log.last_index(), 2);
    assert!(log.get(3).is_none());
    log.append(entry(3, 4, "k"));
    assert_eq!(log.last_index(), 3);
    log.truncate_from(NO_INDEX);
    assert!(log.is_empty());
}

#[test]
fn up_to_date_implements_the_election_restriction() {
    let mut log = RaftLog::new();
    log.append(entry(1, 1, "k"));
    log.append(entry(2, 3, "k"));
    // Higher term wins regardless of length.
    assert!(log.is_up_to_date(1, 4));
    // Same term, longer or equal wins.
    assert!(log.is_up_to_date(2, 3));
    assert!(log.is_up_to_date(5, 3));
    assert!(!log.is_up_to_date(1, 3), "shorter log at same term loses");
    assert!(!log.is_up_to_date(99, 2), "lower term always loses");
}

#[test]
fn byte_offsets_line_up_with_the_file() {
    let mut log = RaftLog::new();
    for i in 1..=6 {
        log.append(entry(i, 1, "key"));
    }
    let bytes: Vec<u8> = log.entries().iter().flat_map(|e| e.to_record()).collect();
    assert_eq!(log.byte_len(), bytes.len());
    for i in 1..=6 {
        let off = log.byte_offset_of(i);
        let r = recover_log(&bytes[..off]);
        assert_eq!(r.entries.len() as u64, i - 1);
    }
}

#[test]
fn hard_state_round_trips() {
    let hs = HardState {
        term: 9,
        voted_for: Some(NodeId(2)),
        seq: 3,
    };
    let mut file = vec![0u8; STATE_FILE_SIZE];
    let off = HardState::slot_offset(hs.seq);
    file[off..off + SLOT_SIZE].copy_from_slice(&hs.to_slot());
    assert_eq!(recover_hard_state(&file), hs);
}

#[test]
fn no_vote_round_trips() {
    let hs = HardState {
        term: 1,
        voted_for: None,
        seq: 0,
    };
    let mut file = vec![0u8; STATE_FILE_SIZE];
    file[..SLOT_SIZE].copy_from_slice(&hs.to_slot());
    assert_eq!(recover_hard_state(&file).voted_for, None);
}

#[test]
fn a_torn_newer_slot_falls_back_to_the_older_one() {
    let old = HardState {
        term: 5,
        voted_for: Some(NodeId(1)),
        seq: 10,
    };
    let new = HardState {
        term: 6,
        voted_for: Some(NodeId(2)),
        seq: 11,
    };
    let mut file = vec![0u8; STATE_FILE_SIZE];
    let o = HardState::slot_offset(old.seq);
    file[o..o + SLOT_SIZE].copy_from_slice(&old.to_slot());
    let n = HardState::slot_offset(new.seq);
    assert_ne!(o, n, "consecutive writes must land in different slots");
    let newer = new.to_slot();
    file[n..n + SLOT_SIZE].copy_from_slice(&newer);
    assert_eq!(recover_hard_state(&file), new);

    // Now tear the newer slot: the older, still-valid state must win.
    for tear in 1..SLOT_SIZE {
        let mut torn = file.clone();
        for b in &mut torn[n + tear..n + SLOT_SIZE] {
            *b = 0;
        }
        let got = recover_hard_state(&torn);
        assert!(
            got == old || got == new,
            "recovered state must be one of the two written states, got {got:?}"
        );
    }
}

fn snap(seq: u64, index: u64) -> Vec<u8> {
    Snapshot {
        seq,
        index,
        term: 1,
        data: vec![index as u8],
    }
    .encode()
}

#[test]
fn the_snapshot_covering_more_wins_even_if_written_first() {
    // Out-of-order installs: the older image can carry the higher seq.
    let newer_content = snap(1, 15);
    let written_later = snap(2, 12);
    let (s, src) = pick_snapshot_with_source(&newer_content, &written_later).unwrap();
    assert_eq!((s.index, src), (15, 0));
}

#[test]
fn a_torn_snapshot_falls_back_to_the_other_file() {
    let good = snap(1, 10);
    let mut torn = snap(2, 20);
    torn.truncate(torn.len() / 2);
    let (s, src) = pick_snapshot_with_source(&good, &torn).unwrap();
    assert_eq!((s.index, src), (10, 0));
    let (s, src) = pick_snapshot_with_source(&torn, &good).unwrap();
    assert_eq!((s.index, src), (10, 1));
    assert!(pick_snapshot_with_source(&torn, &[]).is_none());
}

#[test]
fn an_all_zero_state_file_is_the_initial_state() {
    let file = vec![0u8; STATE_FILE_SIZE];
    assert_eq!(recover_hard_state(&file), HardState::default());
    assert_eq!(recover_hard_state(&[]), HardState::default());
}

#[test]
fn what_recovery_keeps_is_what_its_entries_are_written_as() {
    let entries: Vec<Entry> = (1..=6).map(|i| entry(i, 1 + i / 3, "k")).collect();
    let full = log_bytes(&entries);
    for cut in 0..=full.len() {
        for flip in [None, Some(cut / 2)] {
            let mut bytes = full[..cut].to_vec();
            if let Some(at) = flip {
                if at < cut {
                    bytes[at] ^= 0x10;
                }
            }
            let r = recover_log(&bytes);
            assert_eq!(bytes[..r.valid_bytes], log_bytes(&r.entries)[..]);
        }
    }
}

#[test]
fn offsets_count_the_records_before_them() {
    let entries: Vec<Entry> = (1..=5).map(|i| entry(i, 1, &"key"[..i as usize % 4])).collect();
    let log = RaftLog::from_entries(entries.clone());
    assert_eq!(log.byte_offset_of(1), 0);
    for i in 1..=6 {
        assert_eq!(log.byte_offset_of(i), log_bytes(&entries[..i as usize - 1]).len());
    }
    assert_eq!(log.byte_offset_of(log.last_index() + 1), log.byte_len());
}
