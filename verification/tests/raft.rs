//! Consensus messages and the order of writes.

use simkv::kvstore::codec::{Dec, DecodeError, Enc};
use simkv::kvstore::persist::{BatchEvent, Persist, Persister};
use simkv::kvstore::{Command, Entry, Message, Op, RaftMsg};
use simkv::simcore::NodeId;

#[test]
fn messages_round_trip() {
    let msgs = vec![
        RaftMsg::RequestVote {
            term: 7,
            candidate: NodeId(3),
            last_index: 12,
            last_term: 5,
        },
        RaftMsg::RequestVoteResp {
            term: 7,
            granted: true,
        },
        RaftMsg::AppendEntries {
            term: 9,
            leader: NodeId(1),
            prev_index: 4,
            prev_term: 8,
            entries: vec![Entry {
                term: 9,
                index: 5,
                cmd: Command {
                    client: 2,
                    seq: 1,
                    op: Op::Put {
                        key: "a".into(),
                        value: "b".into(),
                    },
                },
            }],
            leader_commit: 3,
        },
        RaftMsg::AppendEntriesResp {
            term: 9,
            success: false,
            match_index: 4,
            conflict_index: 2,
        },
    ];
    for m in msgs {
        let wire = Message::Raft(m.clone()).encode();
        assert_eq!(Message::decode(&wire).unwrap(), Message::Raft(m));
    }
}

#[test]
fn absurd_entry_counts_are_rejected() {
    let mut e = Enc::new();
    e.u8(3).u64(1).u32(0).u64(0).u64(0).u64(0).u32(u32::MAX);
    let payload = e.into_vec();
    let mut d = Dec::new(&payload);
    assert_eq!(RaftMsg::decode_from(&mut d), Err(DecodeError::TooLong));
}

#[test]
fn persister_sequences_write_then_sync() {
    let mut p = Persister::default();
    let b = p.start(Persist::Quiet);
    p.note_write(b, 1);
    p.note_write(b, 2);
    assert_eq!(p.on_complete(1, true), BatchEvent::Nothing);
    assert_eq!(
        p.on_complete(2, true),
        BatchEvent::NeedSync(b),
        "the sync waits for every write to be confirmed"
    );
    p.note_sync(b, 3);
    assert_eq!(p.on_complete(3, true), BatchEvent::Done(Persist::Quiet));
    assert_eq!(p.in_flight(), 0);
}

#[test]
fn a_failed_write_kills_the_batch() {
    let mut p = Persister::default();
    let b = p.start(Persist::Quiet);
    p.note_write(b, 1);
    assert_eq!(p.on_complete(1, false), BatchEvent::Failed);
    assert_eq!(p.in_flight(), 0);
}

#[test]
fn batches_do_not_interfere() {
    let mut p = Persister::default();
    let a = p.start(Persist::Campaign { term: 1 });
    let b = p.start(Persist::Quiet);
    p.note_write(a, 10);
    p.note_write(b, 20);
    assert_eq!(p.on_complete(20, true), BatchEvent::NeedSync(b));
    assert_eq!(p.on_complete(10, true), BatchEvent::NeedSync(a));
    p.note_sync(b, 21);
    p.note_sync(a, 11);
    assert_eq!(p.on_complete(11, true), BatchEvent::Done(Persist::Campaign { term: 1 }));
    assert_eq!(p.on_complete(21, true), BatchEvent::Done(Persist::Quiet));
}

#[test]
fn truncation_clamps_in_flight_durability_claims() {
    let mut p = Persister::default();
    let b = p.start(Persist::LogDurable {
        index: 10,
        reply_to: None,
        reply_term: 0,
    });
    p.note_write(b, 1);
    p.clamp_all(6);
    p.on_complete(1, true);
    p.note_sync(b, 2);
    assert_eq!(
        p.on_complete(2, true),
        BatchEvent::Done(Persist::LogDurable {
            index: 6,
            reply_to: None,
            reply_term: 0
        })
    );
}

#[test]
fn unknown_ops_are_ignored() {
    let mut p = Persister::default();
    assert_eq!(p.on_complete(999, true), BatchEvent::Nothing);
}
