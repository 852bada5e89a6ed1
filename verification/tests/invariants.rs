//! The safety checks.

use simkv::checker::invariants::{Invariants, NodeView};
use simkv::kvstore::{Command, Entry, Op, RaftLog, Role};
use simkv::simcore::NodeId;

fn cmd(client: u32, seq: u64) -> Command {
    Command {
        client,
        seq,
        op: Op::Put {
            key: "k".into(),
            value: format!("{client}:{seq}"),
        },
    }
}

fn log_of(entries: &[(u64, u64, u32)]) -> RaftLog {
    RaftLog::from_entries(
        entries
            .iter()
            .map(|(index, term, client)| Entry {
                term: *term,
                index: *index,
                cmd: cmd(*client, *index),
            })
            .collect(),
    )
}

fn view<'a>(id: u32, role: Role, term: u64, log: &'a RaftLog, commit: u64) -> NodeView<'a> {
    NodeView {
        id: NodeId(id),
        up: true,
        role,
        term,
        log,
        commit_index: commit,
        last_applied: commit,
        durable_index: log.last_index(),
        incarnation: 0,
        truncations: 0,
    }
}

#[test]
fn a_healthy_cluster_reports_nothing() {
    let log = log_of(&[(1, 1, 0), (2, 1, 0), (3, 2, 0)]);
    let mut inv = Invariants::new();
    for t in 0..10 {
        let views = vec![
            view(0, Role::Leader, 2, &log, 3),
            view(1, Role::Follower, 2, &log, 3),
            view(2, Role::Follower, 2, &log, 2),
        ];
        assert!(inv.observe(t, &views).is_empty());
    }
}

#[test]
fn two_leaders_in_one_term_are_caught() {
    let log = log_of(&[(1, 5, 0)]);
    let mut inv = Invariants::new();
    let views = vec![view(0, Role::Leader, 5, &log, 0)];
    assert!(inv.observe(0, &views).is_empty());
    let views = vec![view(1, Role::Leader, 5, &log, 0)];
    let v = inv.observe(1, &views);
    assert_eq!(v.len(), 1);
    assert_eq!(v[0].kind, "election_safety");
}

#[test]
fn leaders_in_different_terms_are_fine() {
    let log = log_of(&[(1, 5, 0)]);
    let mut inv = Invariants::new();
    assert!(inv
        .observe(0, &[view(0, Role::Leader, 5, &log, 0)])
        .is_empty());
    assert!(inv
        .observe(1, &[view(1, Role::Leader, 6, &log, 0)])
        .is_empty());
}

#[test]
fn the_same_index_and_term_cannot_hold_two_commands() {
    let a = log_of(&[(1, 1, 0)]);
    let b = log_of(&[(1, 1, 9)]); // same index and term, different command
    let mut inv = Invariants::new();
    assert!(inv
        .observe(0, &[view(0, Role::Follower, 1, &a, 0)])
        .is_empty());
    let v = inv.observe(1, &[view(1, Role::Follower, 1, &b, 0)]);
    assert_eq!(v[0].kind, "log_matching");
}

#[test]
fn rewriting_a_committed_entry_is_caught() {
    let a = log_of(&[(1, 1, 0), (2, 1, 0)]);
    let b = log_of(&[(1, 1, 0), (2, 2, 0)]); // index 2 replaced
    let mut inv = Invariants::new();
    assert!(inv
        .observe(0, &[view(0, Role::Follower, 1, &a, 2)])
        .is_empty());
    let v = inv.observe(1, &[view(1, Role::Follower, 2, &b, 2)]);
    assert!(v.iter().any(|x| x.kind == "committed_entry_changed"));
}

#[test]
fn a_leader_missing_a_committed_entry_is_caught() {
    let full = log_of(&[(1, 1, 0), (2, 1, 0), (3, 1, 0)]);
    let short = log_of(&[(1, 1, 0)]);
    let mut inv = Invariants::new();
    assert!(inv
        .observe(0, &[view(0, Role::Follower, 1, &full, 3)])
        .is_empty());
    let v = inv.observe(1, &[view(1, Role::Leader, 2, &short, 1)]);
    assert!(
        v.iter().any(|x| x.kind == "leader_completeness"),
        "got {v:?}"
    );
}

#[test]
fn a_leader_log_may_not_shrink() {
    let long = log_of(&[(1, 3, 0), (2, 3, 0), (3, 3, 0)]);
    let short = log_of(&[(1, 3, 0)]);
    let mut inv = Invariants::new();
    assert!(inv
        .observe(0, &[view(0, Role::Leader, 3, &long, 0)])
        .is_empty());
    let v = inv.observe(1, &[view(0, Role::Leader, 3, &short, 0)]);
    assert!(
        v.iter().any(|x| x.kind == "leader_append_only"),
        "got {v:?}"
    );
}

#[test]
fn divergent_applied_entries_are_caught() {
    let a = log_of(&[(1, 1, 0)]);
    let b = log_of(&[(1, 2, 5)]);
    let mut inv = Invariants::new();
    let mut va = view(0, Role::Follower, 1, &a, 1);
    va.last_applied = 1;
    assert!(inv.observe(0, &[va]).is_empty());
    let mut vb = view(1, Role::Follower, 2, &b, 1);
    vb.last_applied = 1;
    let v = inv.observe(1, &[vb]);
    assert!(
        v.iter().any(|x| x.kind == "state_machine_safety"),
        "got {v:?}"
    );
}

#[test]
fn a_term_may_not_go_below_what_was_acted_on() {
    let log = log_of(&[(1, 4, 0)]);
    let mut inv = Invariants::new();
    inv.note_sent(NodeId(0), 7);
    let v = inv.observe(0, &[view(0, Role::Follower, 4, &log, 0)]);
    assert!(v.iter().any(|x| x.kind == "term_regression"), "got {v:?}");
    // Coming back at or above the acted term is fine.
    assert!(inv
        .observe(1, &[view(0, Role::Follower, 7, &log, 0)])
        .iter()
        .all(|x| x.kind != "term_regression"));
}

#[test]
fn commit_may_not_go_backwards_within_an_incarnation() {
    let log = log_of(&[(1, 1, 0), (2, 1, 0)]);
    let mut inv = Invariants::new();
    assert!(inv
        .observe(0, &[view(0, Role::Follower, 1, &log, 2)])
        .is_empty());
    let v = inv.observe(1, &[view(0, Role::Follower, 1, &log, 1)]);
    assert!(v.iter().any(|x| x.kind == "commit_regression"), "got {v:?}");
}

#[test]
fn a_node_seen_down_may_come_back_at_zero() {
    // The common case: the checker observes the node while it is down, so
    // the incarnation bump is consumed before it returns. Coming back with
    // an empty commit index is a crash doing its job, not a regression.
    let log = log_of(&[(1, 1, 0), (2, 1, 0)]);
    let mut inv = Invariants::new();
    assert!(inv
        .observe(0, &[view(0, Role::Follower, 1, &log, 2)])
        .is_empty());

    let mut down = view(0, Role::Follower, 1, &log, 0);
    down.up = false;
    down.incarnation = 1;
    assert!(inv.observe(1, &[down]).is_empty());

    let mut back = view(0, Role::Follower, 1, &log, 0);
    back.incarnation = 1;
    let found = inv.observe(2, &[back]);
    assert!(
        found.iter().all(|x| x.kind != "commit_regression"),
        "a restart is not a commit regression: {found:?}"
    );
}

#[test]
fn restarting_resets_volatile_state_without_complaint() {
    let log = log_of(&[(1, 1, 0), (2, 1, 0)]);
    let mut inv = Invariants::new();
    assert!(inv
        .observe(0, &[view(0, Role::Follower, 1, &log, 2)])
        .is_empty());
    let mut v2 = view(0, Role::Follower, 1, &log, 0);
    v2.incarnation = 1;
    assert!(inv.observe(1, &[v2]).is_empty());
}

#[test]
fn structural_impossibilities_are_caught() {
    let log = log_of(&[(1, 1, 0)]);
    let mut inv = Invariants::new();
    let mut v = view(0, Role::Follower, 1, &log, 5);
    v.last_applied = 9;
    v.durable_index = 4;
    let found = inv.observe(0, &[v]);
    let kinds: Vec<&str> = found.iter().map(|x| x.kind).collect();
    assert!(kinds.contains(&"commit_beyond_log"));
    assert!(kinds.contains(&"applied_beyond_commit"));
    assert!(kinds.contains(&"durable_beyond_log"));
}

#[test]
fn a_truncation_forces_a_recheck() {
    let a = log_of(&[(1, 1, 0), (2, 1, 0)]);
    let mut inv = Invariants::new();
    assert!(inv
        .observe(0, &[view(0, Role::Follower, 1, &a, 0)])
        .is_empty());
    // The node truncates and replaces index 2 with a conflicting command
    // at the same term -- only a recheck can see it.
    let b = log_of(&[(1, 1, 0), (2, 1, 7)]);
    let mut v = view(0, Role::Follower, 1, &b, 0);
    v.truncations = 1;
    let found = inv.observe(1, &[v]);
    assert!(
        found.iter().any(|x| x.kind == "log_matching"),
        "got {found:?}"
    );
}

#[test]
fn down_nodes_are_not_judged_on_volatile_state() {
    let log = log_of(&[(1, 1, 0)]);
    let mut inv = Invariants::new();
    inv.note_sent(NodeId(0), 9);
    let mut v = view(0, Role::Follower, 1, &log, 0);
    v.up = false;
    assert!(inv.observe(0, &[v]).is_empty());
}

#[test]
fn a_leader_is_bound_by_earlier_terms_only() {
    let full = log_of(&[(1, 1, 0), (2, 1, 0), (3, 1, 0)]);
    let short = log_of(&[(1, 1, 0)]);
    // First reported committed in term 4.
    for (term, bound) in [(3, false), (4, false), (5, true)] {
        let mut inv = Invariants::new();
        assert!(inv
            .observe(0, &[view(0, Role::Follower, 4, &full, 3)])
            .is_empty());
        let v = inv.observe(1, &[view(1, Role::Leader, term, &short, 1)]);
        let about: Vec<_> = v.iter().filter(|x| x.kind == "leader_completeness").collect();
        assert_eq!(about.len(), bound as usize, "term {term}");
        assert!(about.iter().all(|x| x.node == Some(NodeId(1))));
    }
}
