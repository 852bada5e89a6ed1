//! The check of what clients saw.

use simkv::checker::linearizability::{Checker, History, Verdict};
use simkv::checker::operation::Operation;
use simkv::kvstore::{Op, Outcome};
use simkv::simcore::Nanos;

fn op(id: u64, client: u32, invoked: Nanos, completed: Nanos, o: Op, out: Outcome) -> Operation {
    Operation {
        id,
        client,
        op: o,
        invoked,
        completed: Some(completed),
        outcome: Some(out),
    }
}

fn pending(id: u64, client: u32, invoked: Nanos, o: Op) -> Operation {
    Operation {
        id,
        client,
        op: o,
        invoked,
        completed: None,
        outcome: None,
    }
}

fn put(k: &str, v: &str) -> Op {
    Op::Put {
        key: k.into(),
        value: v.into(),
    }
}

fn get(k: &str) -> Op {
    Op::Get { key: k.into() }
}

fn val(v: Option<&str>) -> Outcome {
    Outcome::Value(v.map(str::to_string))
}

fn check(ops: Vec<Operation>) -> Verdict {
    let mut h = History::new();
    for o in ops {
        h.push(o);
    }
    h.well_formed().expect("test history should be well formed");
    Checker::new().check(&h)
}

#[test]
fn empty_history_is_linearizable() {
    assert_eq!(check(vec![]), Verdict::Linearizable);
}

#[test]
fn a_sequential_history_is_linearizable() {
    let h = vec![
        op(1, 0, 0, 10, put("k", "a"), Outcome::Written),
        op(2, 0, 20, 30, get("k"), val(Some("a"))),
        op(3, 0, 40, 50, put("k", "b"), Outcome::Written),
        op(4, 0, 60, 70, get("k"), val(Some("b"))),
    ];
    assert_eq!(check(h), Verdict::Linearizable);
}

#[test]
fn a_stale_read_is_caught() {
    // The read starts after the write returned, so it cannot see the old
    // value under any ordering.
    let h = vec![
        op(1, 0, 0, 10, put("k", "a"), Outcome::Written),
        op(2, 1, 20, 30, get("k"), val(None)),
    ];
    assert!(check(h).is_violation());
}

#[test]
fn a_read_concurrent_with_a_write_may_see_either_value() {
    for observed in [None, Some("a")] {
        let h = vec![
            op(1, 0, 0, 100, put("k", "a"), Outcome::Written),
            op(2, 1, 10, 90, get("k"), val(observed)),
        ];
        assert_eq!(
            check(h),
            Verdict::Linearizable,
            "a concurrent read seeing {observed:?} is legal"
        );
    }
}

#[test]
fn once_a_value_is_read_it_cannot_unread() {
    // Two reads after a concurrent write: seeing "a" then None is illegal,
    // because the write can only be linearized once.
    let h = vec![
        op(1, 0, 0, 100, put("k", "a"), Outcome::Written),
        op(2, 1, 10, 20, get("k"), val(Some("a"))),
        op(3, 1, 30, 40, get("k"), val(None)),
    ];
    assert!(check(h).is_violation());
}

#[test]
fn keys_are_checked_independently() {
    // Illegal on k2 only; the checker must still find it.
    let h = vec![
        op(1, 0, 0, 10, put("k1", "a"), Outcome::Written),
        op(2, 0, 20, 30, get("k1"), val(Some("a"))),
        op(3, 0, 0, 10, put("k2", "b"), Outcome::Written),
        op(4, 0, 20, 30, get("k2"), val(None)),
    ];
    match check(h) {
        Verdict::Violation { key, .. } => assert_eq!(key, "k2"),
        other => panic!("expected a violation on k2, got {other:?}"),
    }
}

#[test]
fn a_lost_update_through_cas_is_caught() {
    // Two clients each swap a -> their own value, both reporting success.
    // Only one can succeed under any linearization.
    let h = vec![
        op(1, 0, 0, 10, put("k", "a"), Outcome::Written),
        op(
            2,
            0,
            20,
            40,
            Op::Cas {
                key: "k".into(),
                expect: Some("a".into()),
                value: "b".into(),
            },
            Outcome::Cas(true),
        ),
        op(
            3,
            1,
            20,
            40,
            Op::Cas {
                key: "k".into(),
                expect: Some("a".into()),
                value: "c".into(),
            },
            Outcome::Cas(true),
        ),
    ];
    assert!(check(h).is_violation());
}

#[test]
fn a_cas_that_loses_the_race_reports_failure() {
    let h = vec![
        op(1, 0, 0, 10, put("k", "a"), Outcome::Written),
        op(
            2,
            0,
            20,
            40,
            Op::Cas {
                key: "k".into(),
                expect: Some("a".into()),
                value: "b".into(),
            },
            Outcome::Cas(true),
        ),
        op(
            3,
            1,
            20,
            40,
            Op::Cas {
                key: "k".into(),
                expect: Some("a".into()),
                value: "c".into(),
            },
            Outcome::Cas(false),
        ),
        op(4, 0, 50, 60, get("k"), val(Some("b"))),
    ];
    assert_eq!(check(h), Verdict::Linearizable);
}

#[test]
fn a_pending_write_may_have_happened() {
    // The client never learned the outcome; a later read sees the value.
    let h = vec![
        pending(1, 0, 0, put("k", "a")),
        op(2, 1, 50, 60, get("k"), val(Some("a"))),
    ];
    assert_eq!(check(h), Verdict::Linearizable);
}

#[test]
fn a_pending_write_may_also_never_have_happened() {
    let h = vec![
        pending(1, 0, 0, put("k", "a")),
        op(2, 1, 50, 60, get("k"), val(None)),
    ];
    assert_eq!(check(h), Verdict::Linearizable);
}

#[test]
fn a_pending_write_cannot_rescue_an_impossible_read() {
    // The read claims a value nobody ever wrote.
    let h = vec![
        pending(1, 0, 0, put("k", "a")),
        op(2, 1, 50, 60, get("k"), val(Some("z"))),
    ];
    assert!(check(h).is_violation());
}

#[test]
fn a_pending_write_cannot_be_linearized_before_it_was_invoked() {
    // The read completes before the write is even sent.
    let h = vec![
        op(1, 1, 0, 10, get("k"), val(Some("a"))),
        pending(2, 0, 20, put("k", "a")),
    ];
    assert!(check(h).is_violation());
}

#[test]
fn deletes_are_modelled() {
    let h = vec![
        op(1, 0, 0, 10, put("k", "a"), Outcome::Written),
        op(
            2,
            0,
            20,
            30,
            Op::Delete { key: "k".into() },
            Outcome::Written,
        ),
        op(3, 0, 40, 50, get("k"), val(None)),
    ];
    assert_eq!(check(h), Verdict::Linearizable);
}

#[test]
fn a_wide_concurrent_history_still_finishes() {
    // Everything overlaps everything: the worst case for the search, and
    // the reason the memo table exists.
    let mut ops = vec![op(0, 0, 0, 1000, put("k", "v0"), Outcome::Written)];
    for i in 1..12u64 {
        ops.push(op(
            i,
            i as u32,
            1,
            999,
            put("k", &format!("v{i}")),
            Outcome::Written,
        ));
    }
    for i in 12..20u64 {
        ops.push(op(i, i as u32, 1, 999, get("k"), val(Some("v0"))));
    }
    let mut c = Checker::new();
    let mut h = History::new();
    for o in ops {
        h.push(o);
    }
    assert_eq!(c.check(&h), Verdict::Linearizable);
    assert!(c.stats.steps > 0);
}

#[test]
fn real_time_order_is_enforced_across_clients() {
    // c0 writes and returns; c1 then writes and returns; a third client
    // reads the first value afterwards. Illegal.
    let h = vec![
        op(1, 0, 0, 10, put("k", "a"), Outcome::Written),
        op(2, 1, 20, 30, put("k", "b"), Outcome::Written),
        op(3, 2, 40, 50, get("k"), val(Some("a"))),
    ];
    assert!(check(h).is_violation());
}

#[test]
fn budget_exhaustion_reports_unknown_not_failure() {
    let mut ops = vec![];
    for i in 0..24u64 {
        ops.push(op(
            i,
            i as u32,
            0,
            10_000,
            put("k", &format!("v{i}")),
            Outcome::Written,
        ));
        ops.push(op(100 + i, i as u32, 1, 9_999, get("k"), val(None)));
    }
    let mut h = History::new();
    for o in ops {
        h.push(o);
    }
    let mut c = Checker {
        budget: 500,
        ..Checker::new()
    };
    match c.check(&h) {
        Verdict::Unknown { .. } => {}
        other => panic!("expected Unknown, got {other:?}"),
    }
}

#[test]
fn well_formed_catches_recording_mistakes() {
    let mut h = History::new();
    h.push(op(1, 0, 100, 50, get("k"), val(None)));
    assert!(h.well_formed().is_err(), "return before invoke");

    let mut h = History::new();
    h.push(op(1, 0, 0, 10, get("k"), val(None)));
    h.push(op(1, 0, 20, 30, get("k"), val(None)));
    assert!(h.well_formed().is_err(), "duplicate id");
}

#[test]
fn an_operation_may_last_no_longer_than_an_instant() {
    let one = vec![op(1, 0, 5, 5, put("k", "a"), Outcome::Written)];
    assert_eq!(check(one), Verdict::Linearizable);
    // It comes behind what ended then, and before what began then.
    let chain = vec![
        op(1, 0, 3, 5, put("k", "a"), Outcome::Written),
        op(2, 1, 5, 5, put("k", "b"), Outcome::Written),
        op(3, 2, 5, 8, get("k"), val(Some("b"))),
    ];
    assert_eq!(check(chain), Verdict::Linearizable);
    let stale = vec![
        op(1, 0, 3, 5, put("k", "a"), Outcome::Written),
        op(2, 1, 5, 5, put("k", "b"), Outcome::Written),
        op(3, 2, 5, 8, get("k"), val(Some("a"))),
    ];
    assert!(check(stale).is_violation());
}

#[test]
fn operations_of_one_instant_may_come_in_either_order() {
    for seen in [None, Some("a")] {
        let h = vec![
            op(1, 0, 5, 5, put("k", "a"), Outcome::Written),
            op(2, 1, 5, 5, get("k"), val(seen)),
        ];
        assert_eq!(check(h), Verdict::Linearizable);
    }
    let h = vec![
        op(1, 0, 5, 5, put("k", "a"), Outcome::Written),
        op(2, 1, 6, 6, get("k"), val(None)),
    ];
    assert!(check(h).is_violation());
}
