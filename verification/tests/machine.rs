//! The state machine and its clients.

use simkv::kvstore::machine::{ClientMsg, Outcome, StateMachine};
use simkv::kvstore::{Command, Message, Op};
use simkv::simcore::NodeId;

fn cmd(client: u32, seq: u64, op: Op) -> Command {
    Command { client, seq, op }
}

fn put(k: &str, v: &str) -> Op {
    Op::Put {
        key: k.into(),
        value: v.into(),
    }
}

fn get(k: &str) -> Op {
    Op::Get { key: k.into() }
}

fn cas(k: &str, expect: Option<&str>, v: &str) -> Op {
    Op::Cas {
        key: k.into(),
        expect: expect.map(str::to_string),
        value: v.into(),
    }
}

#[test]
fn outcomes_round_trip() {
    let outcomes = vec![
        Outcome::Value(None),
        Outcome::Value(Some("v".into())),
        Outcome::Written,
        Outcome::Cas(true),
        Outcome::Cas(false),
        Outcome::NotLeader(None),
        Outcome::NotLeader(Some(NodeId(2))),
        Outcome::Dropped,
    ];
    for o in outcomes {
        let m = Message::Client(ClientMsg::Reply {
            req_id: 1,
            outcome: o.clone(),
        });
        assert_eq!(Message::decode(&m.encode()).unwrap(), m);
    }
}

#[test]
fn requests_round_trip() {
    let m = Message::Client(ClientMsg::Request {
        req_id: 9,
        client: 4,
        seq: 77,
        op: cas("k", Some("old"), "new"),
    });
    assert_eq!(Message::decode(&m.encode()).unwrap(), m);
}

#[test]
fn definite_outcomes_are_the_answers() {
    assert!(Outcome::Written.is_definite());
    assert!(Outcome::Value(None).is_definite());
    assert!(Outcome::Cas(false).is_definite());
    assert!(!Outcome::NotLeader(None).is_definite());
    assert!(!Outcome::Dropped.is_definite());
}

#[test]
fn state_machine_applies_every_operation() {
    let mut m = StateMachine::new();
    assert_eq!(m.apply(&cmd(1, 1, get("k"))), Outcome::Value(None));
    assert_eq!(m.apply(&cmd(1, 2, put("k", "v1"))), Outcome::Written);
    assert_eq!(
        m.apply(&cmd(1, 3, get("k"))),
        Outcome::Value(Some("v1".into()))
    );
    assert_eq!(
        m.apply(&cmd(1, 4, cas("k", Some("wrong"), "v2"))),
        Outcome::Cas(false)
    );
    assert_eq!(m.state().get("k").map(String::as_str), Some("v1"));
    assert_eq!(
        m.apply(&cmd(1, 5, cas("k", Some("v1"), "v2"))),
        Outcome::Cas(true)
    );
    assert_eq!(
        m.apply(&cmd(1, 6, Op::Delete { key: "k".into() })),
        Outcome::Written
    );
    assert_eq!(m.apply(&cmd(1, 7, get("k"))), Outcome::Value(None));
    assert_eq!(
        m.apply(&cmd(1, 8, cas("k", None, "fresh"))),
        Outcome::Cas(true),
        "cas against absent must match None"
    );
}

#[test]
fn a_duplicated_command_is_applied_exactly_once() {
    let mut m = StateMachine::new();
    m.apply(&cmd(1, 1, put("k", "a")));
    assert_eq!(
        m.apply(&cmd(1, 2, cas("k", Some("a"), "b"))),
        Outcome::Cas(true)
    );
    // Someone else resets the key.
    m.apply(&cmd(2, 1, put("k", "a")));
    // The same (client 1, seq 2) command reaches the log a second time.
    assert_eq!(
        m.apply(&cmd(1, 2, cas("k", Some("a"), "b"))),
        Outcome::Cas(true),
        "the remembered result is replayed"
    );
    assert_eq!(
        m.state().get("k").map(String::as_str),
        Some("a"),
        "the duplicate must not have been applied again"
    );
}

#[test]
fn cached_results_answer_retries() {
    let mut m = StateMachine::new();
    assert_eq!(m.cached(1, 5), None);
    m.apply(&cmd(1, 5, put("k", "v")));
    assert_eq!(m.cached(1, 5), Some(Outcome::Written));
    assert_eq!(m.cached(1, 6), None, "only the latest seq is remembered");
    assert_eq!(m.cached(2, 5), None, "sessions are per client");
}

#[test]
fn clients_do_not_share_dedup_state() {
    let mut m = StateMachine::new();
    m.apply(&cmd(1, 1, put("k", "one")));
    m.apply(&cmd(2, 1, put("k", "two")));
    assert_eq!(m.state().get("k").map(String::as_str), Some("two"));
}

#[test]
fn noops_do_not_touch_sessions() {
    let mut m = StateMachine::new();
    assert_eq!(m.apply(&Command::noop()), Outcome::Written);
    assert_eq!(m.cached(u32::MAX, 0), None);
    assert!(m.state().is_empty());
}
