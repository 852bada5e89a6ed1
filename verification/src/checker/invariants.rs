//! Raft's safety properties, checked continuously against the real cluster
//! state.
//!
//! These are the five claims from the paper, plus the ones a running system
//! also has to honour:
//!
//! | property | what it forbids |
//! |---|---|
//! | election safety | two leaders in one term |
//! | leader append-only | a leader deleting or overwriting its own entries |
//! | log matching | the same (index, term) holding different commands |
//! | leader completeness | a new leader missing a committed entry |
//! | state machine safety | two nodes applying different commands at one index |
//! | term durability | a restarted node coming back with a lower term than it acted on |
//! | commit monotonicity | a running node's commit index going backwards |
//!
//! A checker that walked every log on every event would cost more than the
//! simulation, so each log is verified incrementally from a per-node watermark.
//! The watermark is reset whenever that node reports a truncation, which is the
//! only way already-verified entries can change.

use crate::checker::report::{violation_views, Violation, ViolationView};
use crate::count::{bump, count_up};
use crate::kvstore::log::{
    entry_views, lemma_last_index, Command, CommandView, Entry, EntryView, LogView, Op, OpView, RaftLog,
};
use crate::kvstore::raft_model::Role;
use crate::simcore::{Nanos, NodeId};
use crate::text::{decimal, own, put_num, quoted, quoted_opt, quoted_opt_str, quoted_str};
use std::collections::BTreeMap;
use vstd::prelude::*;

verus! {

/// A read-only look at one node, as the driver sees it.
pub struct NodeView<'a> {
    pub id: NodeId,
    pub up: bool,
    pub role: Role,
    pub term: u64,
    pub log: &'a RaftLog,
    pub commit_index: u64,
    pub last_applied: u64,
    pub durable_index: u64,
    /// Bumped on every restart, so volatile state resetting is not mistaken
    /// for state going backwards.
    pub incarnation: u64,
    /// Count of log truncations this node has performed.
    pub truncations: u64,
}

/// A look at one node, as a mathematical value.
pub struct NodeFacts {
    pub id: NodeId,
    pub up: bool,
    pub role: Role,
    pub term: u64,
    pub log: LogView,
    pub commit_index: u64,
    pub last_applied: u64,
    pub durable_index: u64,
    pub incarnation: u64,
    pub truncations: u64,
}

impl<'a> View for NodeView<'a> {
    type V = NodeFacts;

    open spec fn view(&self) -> NodeFacts {
        NodeFacts {
            id: self.id,
            up: self.up,
            role: self.role,
            term: self.term,
            log: self.log@,
            commit_index: self.commit_index,
            last_applied: self.last_applied,
            durable_index: self.durable_index,
            incarnation: self.incarnation,
            truncations: self.truncations,
        }
    }
}

/// How far a node has been verified, and what it must not fall back from.
#[derive(Clone, Copy, Debug, PartialEq, Eq)]
pub struct NodeTrack {
    pub checked_upto: u64,
    pub committed_checked: u64,
    pub applied_checked: u64,
    pub truncations: u64,
    pub incarnation: u64,
    pub commit_index: u64,
    pub acted_term: u64,
}

impl NodeTrack {
    /// A node never seen before.
    pub open spec fn unseen() -> NodeTrack {
        NodeTrack {
            checked_upto: 0,
            committed_checked: 0,
            applied_checked: 0,
            truncations: 0,
            incarnation: 0,
            commit_index: 0,
            acted_term: 0,
        }
    }
}

/// A committed entry, with the evidence for when it was committed.
#[derive(Debug)]
pub struct CommittedRec {
    pub term: u64,
    pub cmd: Command,
    /// The term of the first node observed reporting this index committed.
    ///
    /// Leader completeness only binds leaders of *later* terms: an entry
    /// committed in term 5 must appear in every leader from term 6 onwards. A
    /// node still calling itself leader of term 1 because it has been
    /// partitioned away has no obligation to hold it, and reporting one would
    /// be a false alarm on entirely correct behaviour.
    ///
    /// Recorded once and never lowered. Since the checker runs after every
    /// event, the first reporter is the committing leader or one of its
    /// followers; if it were ever later than the real committing term, the
    /// effect is a weaker check, never a spurious failure.
    pub committed_in_term: u64,
}

/// A committed entry, as a mathematical value.
pub struct RecView {
    pub term: u64,
    pub cmd: CommandView,
    pub committed_in_term: u64,
}

impl View for CommittedRec {
    type V = RecView;

    open spec fn view(&self) -> RecView {
        RecView {
            term: self.term,
            cmd: self.cmd@,
            committed_in_term: self.committed_in_term,
        }
    }
}

impl Clone for CommittedRec {
    fn clone(&self) -> (r: CommittedRec)
        ensures
            r@ == self@,
    {
        CommittedRec {
            term: self.term,
            cmd: self.cmd.clone(),
            committed_in_term: self.committed_in_term,
        }
    }
}

/// What has been applied at an index.
#[derive(Debug)]
pub struct AppliedRec {
    pub term: u64,
    pub cmd: Command,
}

/// What has been applied at an index, as a mathematical value.
pub struct AppliedView {
    pub term: u64,
    pub cmd: CommandView,
}

impl View for AppliedRec {
    type V = AppliedView;

    open spec fn view(&self) -> AppliedView {
        AppliedView { term: self.term, cmd: self.cmd@ }
    }
}

/// Everything the cluster has been seen to commit itself to.
#[derive(Debug)]
pub struct Invariants {
    /// term -> the node that was seen leading it.
    leader_by_term: BTreeMap<u64, NodeId>,
    /// (index, term) -> the command that (index, term) must always name.
    entries: BTreeMap<(u64, u64), Command>,
    /// index -> the entry every node must eventually agree on.
    committed: BTreeMap<u64, CommittedRec>,
    /// (node, term) -> how far leader completeness has been verified for that
    /// leadership, so the check stays incremental instead of rescanning every
    /// committed entry on every event.
    leader_verified: BTreeMap<(u32, u64), u64>,
    /// Highest index anyone has reported committed.
    max_committed: u64,
    /// index -> what was applied to a state machine there.
    applied: BTreeMap<u64, AppliedRec>,
    nodes: BTreeMap<u32, NodeTrack>,
    /// (node, term) -> longest log seen while it led that term.
    leader_log_len: BTreeMap<(u32, u64), u64>,
    checks: u64,
}

/// Everything seen so far, as a mathematical value.
#[verifier::ext_equal]
pub struct Seen {
    pub leader_by_term: Map<u64, NodeId>,
    pub entries: Map<(u64, u64), CommandView>,
    pub committed: Map<u64, RecView>,
    pub leader_verified: Map<(u32, u64), u64>,
    pub max_committed: u64,
    pub applied: Map<u64, AppliedView>,
    pub nodes: Map<u32, NodeTrack>,
    pub leader_log_len: Map<(u32, u64), u64>,
    pub checks: u64,
}

impl View for Invariants {
    type V = Seen;

    closed spec fn view(&self) -> Seen {
        Seen {
            leader_by_term: self.leader_by_term@,
            entries: self.entries@.map_values(|c: Command| c@),
            committed: self.committed@.map_values(|c: CommittedRec| c@),
            leader_verified: self.leader_verified@,
            max_committed: self.max_committed,
            applied: self.applied@.map_values(|c: AppliedRec| c@),
            nodes: self.nodes@,
            leader_log_len: self.leader_log_len@,
            checks: self.checks,
        }
    }
}

// ---- how commands are shown ----------------------------------------------

/// How an operation is shown in a report.
pub open spec fn op_shown(op: OpView) -> Seq<char> {
    match op {
        OpView::Noop => "Noop"@,
        OpView::Get { key } => "Get { key: "@ + quoted(key) + " }"@,
        OpView::Put { key, value } => "Put { key: "@ + quoted(key) + ", value: "@ + quoted(value)
            + " }"@,
        OpView::Delete { key } => "Delete { key: "@ + quoted(key) + " }"@,
        OpView::Cas { key, expect, value } => "Cas { key: "@ + quoted(key) + ", expect: "@
            + quoted_opt(expect) + ", value: "@ + quoted(value) + " }"@,
    }
}

/// How a command is shown in a report.
pub open spec fn command_shown(c: CommandView) -> Seq<char> {
    "Command { client: "@ + decimal(c.client as nat) + ", seq: "@ + decimal(c.seq as nat)
        + ", op: "@ + op_shown(c.op) + " }"@
}

/// Show an operation.
pub fn op_shown_str(op: &Op) -> (r: String)
    ensures
        r@ == op_shown(op@),
{
    match op {
        Op::Noop => own("Noop"),
        Op::Get { key } => {
            let mut s = own("Get { key: ");
            s.append(quoted_str(key.as_str()).as_str());
            s.append(" }");
            s
        },
        Op::Put { key, value } => {
            let mut s = own("Put { key: ");
            s.append(quoted_str(key.as_str()).as_str());
            s.append(", value: ");
            s.append(quoted_str(value.as_str()).as_str());
            s.append(" }");
            s
        },
        Op::Delete { key } => {
            let mut s = own("Delete { key: ");
            s.append(quoted_str(key.as_str()).as_str());
            s.append(" }");
            s
        },
        Op::Cas { key, expect, value } => {
            let mut s = own("Cas { key: ");
            s.append(quoted_str(key.as_str()).as_str());
            s.append(", expect: ");
            s.append(quoted_opt_str(expect).as_str());
            s.append(", value: ");
            s.append(quoted_str(value.as_str()).as_str());
            s.append(" }");
            s
        },
    }
}

/// Show a command.
pub fn command_shown_str(c: &Command) -> (r: String)
    ensures
        r@ == command_shown(c@),
{
    let mut s = own("Command { client: ");
    put_num(&mut s, c.client as u64);
    s.append(", seq: ");
    put_num(&mut s, c.seq);
    s.append(", op: ");
    s.append(op_shown_str(&c.op).as_str());
    s.append(" }");
    s
}

// ---- what a check does ---------------------------------------------------

/// What has been seen, and what was found wrong.
#[verifier::ext_equal]
pub struct Audit {
    pub seen: Seen,
    pub out: Seq<ViolationView>,
}

impl Audit {
    /// The audit with one more finding.
    pub open spec fn find(self, kind: Seq<char>, time: Nanos, node: NodeId, detail: Seq<char>) -> Audit {
        Audit {
            out: self.out.push(ViolationView { kind, time, node: Some(node), detail }),
            ..self
        }
    }

    /// The audit with one more finding where `on` holds.
    pub open spec fn find_if(
        self,
        on: bool,
        kind: Seq<char>,
        time: Nanos,
        node: NodeId,
        detail: Seq<char>,
    ) -> Audit {
        if on {
            self.find(kind, time, node, detail)
        } else {
            self
        }
    }
}

impl Seen {
    /// Nothing seen yet.
    pub open spec fn blank() -> Seen {
        Seen {
            leader_by_term: Map::empty(),
            entries: Map::empty(),
            committed: Map::empty(),
            leader_verified: Map::empty(),
            max_committed: 0,
            applied: Map::empty(),
            nodes: Map::empty(),
            leader_log_len: Map::empty(),
            checks: 0,
        }
    }

    /// What is remembered of a node.
    pub open spec fn track(self, id: NodeId) -> NodeTrack {
        if self.nodes.contains_key(id.0) {
            self.nodes[id.0]
        } else {
            NodeTrack::unseen()
        }
    }

    /// A node noted to have spoken in a term.
    pub open spec fn note_sent(self, from: NodeId, term: u64) -> Seen {
        let t = self.track(from);
        Seen {
            nodes: self.nodes.insert(
                from.0,
                NodeTrack {
                    acted_term: if term > t.acted_term {
                        term
                    } else {
                        t.acted_term
                    },
                    ..t
                },
            ),
            ..self
        }
    }
}

/// What is remembered of a node once its incarnation and truncations have been
/// looked at: after either, everything has to be looked at again.
pub open spec fn refreshed(t: NodeTrack, v: NodeFacts) -> NodeTrack {
    if t.incarnation != v.incarnation || t.truncations != v.truncations {
        NodeTrack {
            incarnation: v.incarnation,
            truncations: v.truncations,
            checked_upto: 0,
            committed_checked: 0,
            applied_checked: 0,
            ..t
        }
    } else {
        t
    }
}

/// The checks that look at one node alone.
pub open spec fn check_alone(a: Audit, time: Nanos, v: NodeFacts, t: NodeTrack, restarted: bool) -> Audit {
    let last = v.log.last_index();
    let a1 = a.find_if(
        v.term < t.acted_term,
        "term_regression"@,
        time,
        v.id,
        "node is at term "@ + decimal(v.term as nat) + " but has already sent messages in term "@
            + decimal(t.acted_term as nat),
    );
    let a2 = a1.find_if(
        v.commit_index > last,
        "commit_beyond_log"@,
        time,
        v.id,
        "commit index "@ + decimal(v.commit_index as nat) + " exceeds last log index "@ + decimal(
            last as nat,
        ),
    );
    let a3 = a2.find_if(
        v.last_applied > v.commit_index,
        "applied_beyond_commit"@,
        time,
        v.id,
        "applied "@ + decimal(v.last_applied as nat) + " but only committed "@ + decimal(
            v.commit_index as nat,
        ),
    );
    let a4 = a3.find_if(
        v.durable_index > last,
        "durable_beyond_log"@,
        time,
        v.id,
        "claims "@ + decimal(v.durable_index as nat) + " durable with a log of "@ + decimal(
            last as nat,
        ),
    );
    let a5 = a4.find_if(
        !restarted && v.commit_index < t.commit_index,
        "commit_regression"@,
        time,
        v.id,
        "commit index went from "@ + decimal(t.commit_index as nat) + " to "@ + decimal(
            v.commit_index as nat,
        ),
    );
    let landed = v.log.term_at(v.commit_index);
    a5.find_if(
        v.role == Role::Leader && v.commit_index > t.commit_index && !restarted && landed is Some
            && landed->Some_0 != v.term,
        "commit_of_foreign_term"@,
        time,
        v.id,
        "leader of term "@ + decimal(v.term as nat) + " advanced commit to index "@ + decimal(
            v.commit_index as nat,
        ) + ", whose entry is from                              term "@ + decimal(
            landed->Some_0 as nat,
        ),
    )
}

/// One leader per term.
pub open spec fn check_election(a: Audit, time: Nanos, v: NodeFacts) -> Audit {
    let known = a.seen.leader_by_term;
    if known.contains_key(v.term) && known[v.term] != v.id {
        a.find(
            "election_safety"@,
            time,
            v.id,
            "term "@ + decimal(v.term as nat) + " already had leader "@ + known[v.term].label(),
        )
    } else {
        Audit {
            seen: Seen { leader_by_term: known.insert(v.term, v.id), ..a.seen },
            ..a
        }
    }
}

/// A leader's log only grows.
pub open spec fn check_append_only(a: Audit, time: Nanos, v: NodeFacts) -> Audit {
    let key = (v.id.0, v.term);
    let lens = a.seen.leader_log_len;
    let longest = if lens.contains_key(key) {
        lens[key]
    } else {
        0
    };
    let last = v.log.last_index();
    let b = a.find_if(
        last < longest,
        "leader_append_only"@,
        time,
        v.id,
        "leader log shrank from "@ + decimal(longest as nat) + " to "@ + decimal(last as nat)
            + " in term "@ + decimal(v.term as nat),
    );
    Audit {
        seen: Seen {
            leader_log_len: lens.insert(
                key,
                if last > longest {
                    last
                } else {
                    longest
                },
            ),
            ..b.seen
        },
        ..b
    }
}

/// Committed entries from `index` on that a leader must hold: the audit, and
/// how far the leader has been verified.
pub open spec fn check_complete_from(
    a: Audit,
    time: Nanos,
    v: NodeFacts,
    index: int,
    verified: u64,
) -> (Audit, u64)
    decreases a.seen.max_committed + 1 - index,
{
    if index > a.seen.max_committed {
        (a, verified)
    } else {
        let i = index as u64;
        if !a.seen.committed.contains_key(i) {
            check_complete_from(a, time, v, index + 1, verified)
        } else {
            let rec = a.seen.committed[i];
            if rec.committed_in_term >= v.term {
                check_complete_from(a, time, v, index + 1, i)
            } else if i > v.log.last_index() {
                (
                    a.find(
                        "leader_completeness"@,
                        time,
                        v.id,
                        "leader of term "@ + decimal(v.term as nat) + " is missing index "@
                            + decimal(i as nat) + ", committed in term "@ + decimal(
                            rec.committed_in_term as nat,
                        ) + " (log ends at "@ + decimal(v.log.last_index() as nat) + ")"@,
                    ),
                    verified,
                )
            } else {
                match v.log.get(i) {
                    None => check_complete_from(a, time, v, index + 1, i),
                    Some(e) => if e.term != rec.term || e.cmd != rec.cmd {
                        (
                            a.find(
                                "leader_completeness"@,
                                time,
                                v.id,
                                "leader of term "@ + decimal(v.term as nat)
                                    + " has a different entry at index "@ + decimal(i as nat)
                                    + ", committed in term "@ + decimal(
                                    rec.committed_in_term as nat,
                                ) + ": term "@ + decimal(e.term as nat) + " vs "@ + decimal(
                                    rec.term as nat,
                                ),
                            ),
                            verified,
                        )
                    } else {
                        check_complete_from(a, time, v, index + 1, i)
                    },
                }
            }
        }
    }
}

/// A leader holds everything committed under earlier leaders.
pub open spec fn check_completeness(a: Audit, time: Nanos, v: NodeFacts) -> Audit {
    let key = (v.id.0, v.term);
    let known = a.seen.leader_verified;
    let verified = if known.contains_key(key) {
        known[key]
    } else {
        0
    };
    let (b, upto) = check_complete_from(a, time, v, verified + 1, verified);
    Audit { seen: Seen { leader_verified: known.insert(key, upto), ..b.seen }, ..b }
}

/// One entry of a log against what its index and term have named before.
pub open spec fn check_entry(a: Audit, time: Nanos, v: NodeFacts, e: EntryView) -> Audit {
    let key = (e.index, e.term);
    let known = a.seen.entries;
    if !known.contains_key(key) {
        Audit { seen: Seen { entries: known.insert(key, e.cmd), ..a.seen }, ..a }
    } else {
        a.find_if(
            known[key] != e.cmd,
            "log_matching"@,
            time,
            v.id,
            "index "@ + decimal(e.index as nat) + " term "@ + decimal(e.term as nat)
                + " holds two different commands: "@ + command_shown(known[key]) + " vs "@
                + command_shown(e.cmd),
        )
    }
}

/// The first `n` of a list of entries checked.
pub open spec fn check_entries(
    a: Audit,
    time: Nanos,
    v: NodeFacts,
    es: Seq<EntryView>,
    n: nat,
) -> Audit
    decreases n,
{
    if n == 0 {
        a
    } else {
        check_entry(check_entries(a, time, v, es, (n - 1) as nat), time, v, es[n - 1])
    }
}

/// The entries of a log above an index.
pub open spec fn entries_above(log: LogView, index: u64) -> Seq<EntryView> {
    if index <= log.snapshot_index {
        log.entries
    } else if index - log.snapshot_index >= log.entries.len() {
        Seq::empty()
    } else {
        log.entries.skip(index - log.snapshot_index)
    }
}

/// Committed entries from `index` on against what was committed there before:
/// the audit, and how far the node has been verified.
pub open spec fn check_committed_from(
    a: Audit,
    time: Nanos,
    v: NodeFacts,
    index: int,
    checked: u64,
) -> (Audit, u64)
    decreases v.commit_index + 1 - index,
{
    if index > v.commit_index {
        (a, checked)
    } else {
        let i = index as u64;
        match v.log.get(i) {
            None => (a, checked),
            Some(e) => {
                let known = a.seen.committed;
                let b = if known.contains_key(i) {
                    let rec = known[i];
                    a.find_if(
                        rec.term != e.term || rec.cmd != e.cmd,
                        "committed_entry_changed"@,
                        time,
                        v.id,
                        "committed index "@ + decimal(i as nat) + " was term "@ + decimal(
                            rec.term as nat,
                        ) + " "@ + command_shown(rec.cmd) + ", now term "@ + decimal(
                            e.term as nat,
                        ) + " "@ + command_shown(e.cmd),
                    )
                } else {
                    Audit {
                        seen: Seen {
                            committed: known.insert(
                                i,
                                RecView { term: e.term, cmd: e.cmd, committed_in_term: v.term },
                            ),
                            max_committed: if i > a.seen.max_committed {
                                i
                            } else {
                                a.seen.max_committed
                            },
                            ..a.seen
                        },
                        ..a
                    }
                };
                check_committed_from(b, time, v, index + 1, i)
            },
        }
    }
}

/// Applied entries from `index` on against what was applied there elsewhere:
/// the audit, and how far the node has been verified.
pub open spec fn check_applied_from(
    a: Audit,
    time: Nanos,
    v: NodeFacts,
    index: int,
    checked: u64,
) -> (Audit, u64)
    decreases v.last_applied + 1 - index,
{
    if index > v.last_applied {
        (a, checked)
    } else {
        let i = index as u64;
        match v.log.get(i) {
            None => (a, checked),
            Some(e) => {
                let known = a.seen.applied;
                let b = if known.contains_key(i) {
                    let rec = known[i];
                    a.find_if(
                        rec.term != e.term || rec.cmd != e.cmd,
                        "state_machine_safety"@,
                        time,
                        v.id,
                        "index "@ + decimal(i as nat) + " applied as term "@ + decimal(
                            rec.term as nat,
                        ) + " "@ + command_shown(rec.cmd) + " elsewhere, but as term "@ + decimal(
                            e.term as nat,
                        ) + " "@ + command_shown(e.cmd) + " here"@,
                    )
                } else {
                    Audit {
                        seen: Seen {
                            applied: known.insert(i, AppliedView { term: e.term, cmd: e.cmd }),
                            ..a.seen
                        },
                        ..a
                    }
                };
                check_applied_from(b, time, v, index + 1, i)
            },
        }
    }
}

/// The checks that bind a leader.
pub open spec fn check_leader(a: Audit, time: Nanos, v: NodeFacts) -> Audit {
    check_completeness(check_append_only(check_election(a, time, v), time, v), time, v)
}

/// The checks on what a node's log holds, from its watermarks on.
pub open spec fn check_log(a: Audit, time: Nanos, v: NodeFacts, t: NodeTrack) -> Audit {
    let fresh = entries_above(v.log, t.checked_upto);
    let a1 = check_entries(a, time, v, fresh, fresh.len());
    let (a2, committed) = check_committed_from(
        a1,
        time,
        v,
        t.committed_checked + 1,
        t.committed_checked,
    );
    let (a3, applied) = check_applied_from(a2, time, v, t.applied_checked + 1, t.applied_checked);
    let now = NodeTrack {
        checked_upto: if fresh.len() > 0 {
            v.log.last_index()
        } else {
            t.checked_upto
        },
        committed_checked: committed,
        applied_checked: applied,
        commit_index: v.commit_index,
        ..t
    };
    Audit { seen: Seen { nodes: a3.seen.nodes.insert(v.id.0, now), ..a3.seen }, ..a3 }
}

/// Everything checked of one node.
pub open spec fn check_one(a: Audit, time: Nanos, v: NodeFacts) -> Audit {
    let before = a.seen.track(v.id);
    let restarted = before.incarnation != v.incarnation;
    let t = refreshed(before, v);
    if !v.up {
        // A crash destroys volatile state: commit index and applied index come
        // back at zero, and everything has to be looked at again.
        Audit {
            seen: Seen {
                nodes: a.seen.nodes.insert(
                    v.id.0,
                    NodeTrack {
                        commit_index: 0,
                        checked_upto: 0,
                        committed_checked: 0,
                        applied_checked: 0,
                        ..t
                    },
                ),
                ..a.seen
            },
            ..a
        }
    } else {
        let a1 = check_alone(a, time, v, t, restarted);
        let a2 = if v.role == Role::Leader {
            check_leader(a1, time, v)
        } else {
            a1
        };
        check_log(a2, time, v, t)
    }
}

/// The first `n` nodes checked.
pub open spec fn check_all(a: Audit, time: Nanos, vs: Seq<NodeFacts>, n: nat) -> Audit
    decreases n,
{
    if n == 0 {
        a
    } else {
        check_one(check_all(a, time, vs, (n - 1) as nat), time, vs[n - 1])
    }
}

/// What a list of looks shows.
pub open spec fn facts(vs: Seq<NodeView>) -> Seq<NodeFacts> {
    vs.map_values(|v: NodeView| v@)
}

// ---- the checks as they run ----------------------------------------------

fn note(
    out: &mut Vec<Violation>,
    kind: &'static str,
    time: Nanos,
    node: NodeId,
    detail: String,
)
    ensures
        violation_views(final(out)@) == violation_views(old(out)@).push(
            ViolationView { kind: kind@, time, node: Some(node), detail: detail@ },
        ),
{
    let ghost d = detail@;
    out.push(Violation::new(kind, time, Some(node), detail));
    assert(violation_views(out@) =~= violation_views(old(out)@).push(
        ViolationView { kind: kind@, time, node: Some(node), detail: d },
    ));
}

/// The words of a sentence with numbers in it.
fn phrase2(a: &str, x: u64, b: &str, y: u64) -> (r: String)
    ensures
        r@ == a@ + decimal(x as nat) + b@ + decimal(y as nat),
{
    let mut s = own(a);
    put_num(&mut s, x);
    s.append(b);
    put_num(&mut s, y);
    s
}

impl Default for Invariants {
    fn default() -> (r: Invariants)
        ensures
            r@ == Seen::blank(),
    {
        Invariants::new()
    }
}

impl Invariants {
    pub fn new() -> (r: Invariants)
        ensures
            r@ == Seen::blank(),
    {
        let r = Invariants {
            leader_by_term: BTreeMap::new(),
            entries: BTreeMap::new(),
            committed: BTreeMap::new(),
            leader_verified: BTreeMap::new(),
            max_committed: 0,
            applied: BTreeMap::new(),
            nodes: BTreeMap::new(),
            leader_log_len: BTreeMap::new(),
            checks: 0,
        };
        assert(r@ =~= Seen::blank());
        r
    }

    pub fn checks_run(&self) -> (r: u64)
        ensures
            r == self@.checks,
    {
        self.checks
    }

    fn track(&self, id: NodeId) -> (r: NodeTrack)
        ensures
            r == self@.track(id),
    {
        match self.nodes.get(&id.0) {
            Some(t) => *t,
            None => NodeTrack {
                checked_upto: 0,
                committed_checked: 0,
                applied_checked: 0,
                truncations: 0,
                incarnation: 0,
                commit_index: 0,
                acted_term: 0,
            },
        }
    }

    /// Record that `from` sent a message carrying `term`.
    ///
    /// Every message a node sends follows an `fsync` of at least that term, so
    /// the node must never afterwards be seen at a lower term -- not even after
    /// a crash. This is the check that would catch a lost hard-state write.
    pub fn note_sent(&mut self, from: NodeId, term: u64)
        ensures
            final(self)@ == old(self)@.note_sent(from, term),
    {
        let mut t = self.track(from);
        if term > t.acted_term {
            t.acted_term = term;
        }
        self.nodes.insert(from.0, t);
    }

    /// The highest term a node was noted to have spoken in.
    pub fn acted_term(&self, id: NodeId) -> (r: u64)
        ensures
            r == self@.track(id).acted_term,
    {
        self.track(id).acted_term
    }

    /// Check everything against the current state of the cluster.
    pub fn observe(&mut self, time: Nanos, views: &[NodeView]) -> (r: Vec<Violation>)
        requires
            forall|i: int| 0 <= i < views@.len() ==> (#[trigger] views@[i]).log@.wf(),
        ensures
            (Audit { seen: final(self)@, out: violation_views(r@) }) == check_all(
                Audit {
                    seen: Seen { checks: bump(old(self)@.checks), ..old(self)@ },
                    out: Seq::empty(),
                },
                time,
                facts(views@),
                views@.len(),
            ),
    {
        self.checks = count_up(self.checks);
        let mut out: Vec<Violation> = Vec::new();
        let ghost start = Audit { seen: self@, out: Seq::empty() };
        let ghost vs = facts(views@);
        assert(violation_views(out@) =~= Seq::empty());
        let mut i: usize = 0;
        while i < views.len()
            invariant
                i <= views@.len(),
                vs == facts(views@),
                forall|i: int| 0 <= i < views@.len() ==> (#[trigger] views@[i]).log@.wf(),
                (Audit { seen: self@, out: violation_views(out@) }) == check_all(
                    start,
                    time,
                    vs,
                    i as nat,
                ),
            decreases views@.len() - i,
        {
            assert(vs[i as int] == views@[i as int]@);
            self.check_node(time, &views[i], &mut out);
            i += 1;
        }
        out
    }

    fn check_node(&mut self, time: Nanos, v: &NodeView, out: &mut Vec<Violation>)
        requires
            v.log@.wf(),
        ensures
            (Audit { seen: final(self)@, out: violation_views(final(out)@) }) == check_one(
                Audit { seen: old(self)@, out: violation_views(old(out)@) },
                time,
                v@,
            ),
    {
        let mut t = self.track(v.id);
        let restarted = t.incarnation != v.incarnation;
        let truncated = t.truncations != v.truncations;
        if restarted || truncated {
            // Entries at or after the truncation point may have been replaced,
            // and a restart may have lost an unsynced tail, so everything has
            // to be looked at again.
            t.incarnation = v.incarnation;
            t.truncations = v.truncations;
            t.checked_upto = 0;
            t.committed_checked = 0;
            t.applied_checked = 0;
        }
        if !v.up {
            // A down node's volatile state is meaningless; its disk is checked
            // by the durability checker instead. Remembering the pre-crash
            // values here would report every single restart as state going
            // backwards.
            t.commit_index = 0;
            t.checked_upto = 0;
            t.committed_checked = 0;
            t.applied_checked = 0;
            self.nodes.insert(v.id.0, t);
            return;
        }
        check_node_alone(time, v, t, restarted, out, Ghost(self@));
        if v.role == Role::Leader {
            self.check_node_election(time, v, out);
            self.check_node_append_only(time, v, out);
            self.check_node_completeness(time, v, out);
        }
        self.check_node_log(time, v, t, out);
    }

    fn check_node_election(&mut self, time: Nanos, v: &NodeView, out: &mut Vec<Violation>)
        ensures
            (Audit { seen: final(self)@, out: violation_views(final(out)@) }) == check_election(
                Audit { seen: old(self)@, out: violation_views(old(out)@) },
                time,
                v@,
            ),
    {
        if let Some(other) = self.leader_by_term.get(&v.term) {
            if *other != v.id {
                let mut s = own("term ");
                put_num(&mut s, v.term);
                s.append(" already had leader ");
                s.append(other.text().as_str());
                note(out, "election_safety", time, v.id, s);
                return;
            }
        }
        self.leader_by_term.insert(v.term, v.id);
    }

    fn check_node_append_only(&mut self, time: Nanos, v: &NodeView, out: &mut Vec<Violation>)
        ensures
            (Audit { seen: final(self)@, out: violation_views(final(out)@) }) == check_append_only(
                Audit { seen: old(self)@, out: violation_views(old(out)@) },
                time,
                v@,
            ),
    {
        let longest: u64 = match self.leader_log_len.get(&(v.id.0, v.term)) {
            Some(n) => *n,
            None => 0,
        };
        let last: u64 = v.log.last_index();
        if last < longest {
            let mut s = phrase2("leader log shrank from ", longest, " to ", last);
            s.append(" in term ");
            put_num(&mut s, v.term);
            note(out, "leader_append_only", time, v.id, s);
        }
        self.leader_log_len.insert(
            (v.id.0, v.term),
            if last > longest {
                last
            } else {
                longest
            },
        );
    }

    fn check_node_completeness(&mut self, time: Nanos, v: &NodeView, out: &mut Vec<Violation>)
        requires
            v.log@.wf(),
        ensures
            (Audit { seen: final(self)@, out: violation_views(final(out)@) }) == check_completeness(
                Audit { seen: old(self)@, out: violation_views(old(out)@) },
                time,
                v@,
            ),
    {
        let ghost a0 = Audit { seen: self@, out: violation_views(out@) };
        let mut verified: u64 = match self.leader_verified.get(&(v.id.0, v.term)) {
            Some(n) => *n,
            None => 0,
        };
        let ghost first = verified;
        let mut done = verified == u64::MAX;
        let mut index: u64 = if done {
            verified
        } else {
            verified + 1
        };
        let ghost expect = check_complete_from(a0, time, v@, first + 1, first);
        assert(done ==> expect == (a0, first));
        // An entry committed under a leader of term T must be present in every
        // leader from term T+1 onwards. Entries committed in this node's own
        // term or later are not its obligation: either it committed them
        // itself, or a later leader did and this one is simply out of date and
        // unable to commit anything anyway.
        while !done && index <= self.max_committed
            invariant
                v.log@.wf(),
                *self == *old(self),
                a0.seen == self@,
                done ==> expect == (
                    Audit { seen: self@, out: violation_views(out@) },
                    verified,
                ),
                !done ==> violation_views(out@) == a0.out && expect == check_complete_from(
                    Audit { seen: self@, out: violation_views(out@) },
                    time,
                    v@,
                    index as int,
                    verified,
                ),
            decreases
                    (if done {
                        0int
                    } else {
                        1
                    }),
                    self.max_committed + 1 - index,
        {
            if let Some(rec) = self.committed.get(&index) {
                if rec.committed_in_term >= v.term {
                    verified = index;
                } else if index > v.log.last_index() {
                    let mut s = phrase2(
                        "leader of term ",
                        v.term,
                        " is missing index ",
                        index,
                    );
                    s.append(", committed in term ");
                    put_num(&mut s, rec.committed_in_term);
                    s.append(" (log ends at ");
                    put_num(&mut s, v.log.last_index());
                    s.append(")");
                    note(out, "leader_completeness", time, v.id, s);
                    done = true;
                } else {
                    match v.log.get(index) {
                        None => {
                            verified = index;
                        },
                        Some(e) => {
                            if e.term != rec.term || !e.cmd.same(&rec.cmd) {
                                let mut s = phrase2(
                                    "leader of term ",
                                    v.term,
                                    " has a different entry at index ",
                                    index,
                                );
                                s.append(", committed in term ");
                                put_num(&mut s, rec.committed_in_term);
                                s.append(": term ");
                                put_num(&mut s, e.term);
                                s.append(" vs ");
                                put_num(&mut s, rec.term);
                                note(out, "leader_completeness", time, v.id, s);
                                done = true;
                            } else {
                                verified = index;
                            }
                        },
                    }
                }
            }
            if !done {
                if index == u64::MAX {
                    assert(check_complete_from(
                        Audit { seen: self@, out: violation_views(out@) },
                        time,
                        v@,
                        index + 1,
                        verified,
                    ) == (Audit { seen: self@, out: violation_views(out@) }, verified));
                    done = true;
                } else {
                    index += 1;
                }
            }
        }
        assert(expect == (Audit { seen: self@, out: violation_views(out@) }, verified));
        self.leader_verified.insert((v.id.0, v.term), verified);
        assert(Audit { seen: self@, out: violation_views(out@) } =~= check_completeness(
            a0,
            time,
            v@,
        ));
    }

    fn check_node_entry(&mut self, time: Nanos, v: &NodeView, e: &Entry, out: &mut Vec<Violation>)
        ensures
            (Audit { seen: final(self)@, out: violation_views(final(out)@) }) == check_entry(
                Audit { seen: old(self)@, out: violation_views(old(out)@) },
                time,
                v@,
                e@,
            ),
    {
        if let Some(known) = self.entries.get(&(e.index, e.term)) {
            if !known.same(&e.cmd) {
                let mut s = phrase2("index ", e.index, " term ", e.term);
                s.append(" holds two different commands: ");
                s.append(command_shown_str(known).as_str());
                s.append(" vs ");
                s.append(command_shown_str(&e.cmd).as_str());
                note(out, "log_matching", time, v.id, s);
            }
            return;
        }
        self.entries.insert((e.index, e.term), e.cmd.clone());
        assert(self@.entries =~= old(self)@.entries.insert((e.index, e.term), e.cmd@));
    }

    fn check_node_committed(
        &mut self,
        time: Nanos,
        v: &NodeView,
        i: u64,
        e: &Entry,
        out: &mut Vec<Violation>,
    )
        ensures
            ({
                let a = Audit { seen: old(self)@, out: violation_views(old(out)@) };
                let known = a.seen.committed;
                (Audit { seen: final(self)@, out: violation_views(final(out)@) })
                    == if known.contains_key(i) {
                    let rec = known[i];
                    a.find_if(
                        rec.term != e@.term || rec.cmd != e@.cmd,
                        "committed_entry_changed"@,
                        time,
                        v@.id,
                        "committed index "@ + decimal(i as nat) + " was term "@ + decimal(
                            rec.term as nat,
                        ) + " "@ + command_shown(rec.cmd) + ", now term "@ + decimal(
                            e@.term as nat,
                        ) + " "@ + command_shown(e@.cmd),
                    )
                } else {
                    Audit {
                        seen: Seen {
                            committed: known.insert(
                                i,
                                RecView {
                                    term: e@.term,
                                    cmd: e@.cmd,
                                    committed_in_term: v@.term,
                                },
                            ),
                            max_committed: if i > a.seen.max_committed {
                                i
                            } else {
                                a.seen.max_committed
                            },
                            ..a.seen
                        },
                        ..a
                    }
                }
            }),
    {
        if let Some(rec) = self.committed.get(&i) {
            if rec.term != e.term || !rec.cmd.same(&e.cmd) {
                let mut s = phrase2("committed index ", i, " was term ", rec.term);
                s.append(" ");
                s.append(command_shown_str(&rec.cmd).as_str());
                s.append(", now term ");
                put_num(&mut s, e.term);
                s.append(" ");
                s.append(command_shown_str(&e.cmd).as_str());
                note(out, "committed_entry_changed", time, v.id, s);
            }
            return;
        }
        let rec = CommittedRec { term: e.term, cmd: e.cmd.clone(), committed_in_term: v.term };
        let ghost rv = rec@;
        self.committed.insert(i, rec);
        if i > self.max_committed {
            self.max_committed = i;
        }
        assert(self@.committed =~= old(self)@.committed.insert(i, rv));
    }

    fn check_node_applied(
        &mut self,
        time: Nanos,
        v: &NodeView,
        i: u64,
        e: &Entry,
        out: &mut Vec<Violation>,
    )
        ensures
            ({
                let a = Audit { seen: old(self)@, out: violation_views(old(out)@) };
                let known = a.seen.applied;
                (Audit { seen: final(self)@, out: violation_views(final(out)@) })
                    == if known.contains_key(i) {
                    let rec = known[i];
                    a.find_if(
                        rec.term != e@.term || rec.cmd != e@.cmd,
                        "state_machine_safety"@,
                        time,
                        v@.id,
                        "index "@ + decimal(i as nat) + " applied as term "@ + decimal(
                            rec.term as nat,
                        ) + " "@ + command_shown(rec.cmd) + " elsewhere, but as term "@ + decimal(
                            e@.term as nat,
                        ) + " "@ + command_shown(e@.cmd) + " here"@,
                    )
                } else {
                    Audit {
                        seen: Seen {
                            applied: known.insert(
                                i,
                                AppliedView { term: e@.term, cmd: e@.cmd },
                            ),
                            ..a.seen
                        },
                        ..a
                    }
                }
            }),
    {
        if let Some(rec) = self.applied.get(&i) {
            if rec.term != e.term || !rec.cmd.same(&e.cmd) {
                let mut s = phrase2("index ", i, " applied as term ", rec.term);
                s.append(" ");
                s.append(command_shown_str(&rec.cmd).as_str());
                s.append(" elsewhere, but as term ");
                put_num(&mut s, e.term);
                s.append(" ");
                s.append(command_shown_str(&e.cmd).as_str());
                s.append(" here");
                note(out, "state_machine_safety", time, v.id, s);
            }
            return;
        }
        let rec = AppliedRec { term: e.term, cmd: e.cmd.clone() };
        let ghost rv = rec@;
        self.applied.insert(i, rec);
        assert(self@.applied =~= old(self)@.applied.insert(i, rv));
    }

    #[verifier::spinoff_prover]
    #[verifier::rlimit(40)]
    fn check_node_log(&mut self, time: Nanos, v: &NodeView, t: NodeTrack, out: &mut Vec<Violation>)
        requires
            v.log@.wf(),
        ensures
            (Audit { seen: final(self)@, out: violation_views(final(out)@) }) == check_log(
                Audit { seen: old(self)@, out: violation_views(old(out)@) },
                time,
                v@,
                t,
            ),
    {
        let ghost a0 = Audit { seen: self@, out: violation_views(out@) };
        let ghost fresh = entries_above(v.log@, t.checked_upto);
        proof {
            lemma_last_index(v.log@);
        }
        // Every (index, term) pair must name exactly one command, everywhere.
        let es = v.log.entries();
        let base: u64 = v.log.snapshot_index();
        let start: usize = if t.checked_upto <= base {
            0
        } else if t.checked_upto - base >= es.len() as u64 {
            es.len()
        } else {
            (t.checked_upto - base) as usize
        };
        assert(entry_views(es@).skip(start as int) =~= fresh);
        let mut k: usize = start;
        while k < es.len()
            invariant
                start <= k <= es@.len(),
                fresh == entry_views(es@).skip(start as int),
                (Audit { seen: self@, out: violation_views(out@) }) == check_entries(
                    a0,
                    time,
                    v@,
                    fresh,
                    (k - start) as nat,
                ),
            decreases es@.len() - k,
        {
            assert(fresh[k - start] == es@[k as int]@);
            self.check_node_entry(time, v, &es[k], out);
            k += 1;
        }
        let mut now = t;
        if es.len() > start {
            now.checked_upto = v.log.last_index();
        }
        // Resumed from a watermark: a full rescan on every event would make
        // checking cost more than simulating. The watermark is reset whenever
        // the node truncates or restarts, which are the only ways an entry
        // already looked at can change.
        let ghost a1 = Audit { seen: self@, out: violation_views(out@) };
        now.committed_checked = self.check_node_commits(time, v, t.committed_checked, out);
        now.applied_checked = self.check_node_applies(time, v, t.applied_checked, out);
        now.commit_index = v.commit_index;
        self.nodes.insert(v.id.0, now);
    }

    fn check_node_commits(
        &mut self,
        time: Nanos,
        v: &NodeView,
        from: u64,
        out: &mut Vec<Violation>,
    ) -> (r: u64)
        requires
            v.log@.wf(),
        ensures
            (Audit { seen: final(self)@, out: violation_views(final(out)@) }, r)
                == check_committed_from(
                Audit { seen: old(self)@, out: violation_views(old(out)@) },
                time,
                v@,
                from + 1,
                from,
            ),
    {
        let mut checked: u64 = from;
        while checked < v.commit_index
            invariant
                v.log@.wf(),
                check_committed_from(
                    Audit { seen: old(self)@, out: violation_views(old(out)@) },
                    time,
                    v@,
                    from + 1,
                    from,
                ) == check_committed_from(
                    Audit { seen: self@, out: violation_views(out@) },
                    time,
                    v@,
                    checked + 1,
                    checked,
                ),
            decreases v.commit_index - checked,
        {
            let index: u64 = checked + 1;
            match v.log.get(index) {
                Some(e) => {
                    self.check_node_committed(time, v, index, e, out);
                },
                None => {
                    return checked;
                },
            }
            checked = index;
        }
        checked
    }

    fn check_node_applies(
        &mut self,
        time: Nanos,
        v: &NodeView,
        from: u64,
        out: &mut Vec<Violation>,
    ) -> (r: u64)
        requires
            v.log@.wf(),
        ensures
            (Audit { seen: final(self)@, out: violation_views(final(out)@) }, r)
                == check_applied_from(
                Audit { seen: old(self)@, out: violation_views(old(out)@) },
                time,
                v@,
                from + 1,
                from,
            ),
    {
        let mut checked: u64 = from;
        while checked < v.last_applied
            invariant
                v.log@.wf(),
                check_applied_from(
                    Audit { seen: old(self)@, out: violation_views(old(out)@) },
                    time,
                    v@,
                    from + 1,
                    from,
                ) == check_applied_from(
                    Audit { seen: self@, out: violation_views(out@) },
                    time,
                    v@,
                    checked + 1,
                    checked,
                ),
            decreases v.last_applied - checked,
        {
            let index: u64 = checked + 1;
            match v.log.get(index) {
                Some(e) => {
                    self.check_node_applied(time, v, index, e, out);
                },
                None => {
                    return checked;
                },
            }
            checked = index;
        }
        checked
    }

    /// Highest index any node has reported committed.
    pub fn max_committed(&self) -> (r: u64)
        ensures
            r == self@.max_committed,
    {
        self.max_committed
    }

    /// The entry that must live at `index` on every node, once committed.
    pub fn committed_entry(&self, index: u64) -> (r: Option<&CommittedRec>)
        ensures
            match r {
                Some(c) => self@.committed.contains_key(index) && self@.committed[index] == c@,
                None => !self@.committed.contains_key(index),
            },
    {
        self.committed.get(&index)
    }
}

fn check_node_alone(
    time: Nanos,
    v: &NodeView,
    t: NodeTrack,
    restarted: bool,
    out: &mut Vec<Violation>,
    Ghost(seen): Ghost<Seen>,
)
    requires
        v.log@.wf(),
    ensures
        (Audit { seen, out: violation_views(final(out)@) }) == check_alone(
            Audit { seen, out: violation_views(old(out)@) },
            time,
            v@,
            t,
            restarted,
        ),
{
    let last: u64 = v.log.last_index();
    // --- term durability ---
    if v.term < t.acted_term {
        let s = phrase2(
            "node is at term ",
            v.term,
            " but has already sent messages in term ",
            t.acted_term,
        );
        note(out, "term_regression", time, v.id, s);
    }
    // --- structural sanity ---

    if v.commit_index > last {
        let s = phrase2("commit index ", v.commit_index, " exceeds last log index ", last);
        note(out, "commit_beyond_log", time, v.id, s);
    }
    if v.last_applied > v.commit_index {
        let s = phrase2("applied ", v.last_applied, " but only committed ", v.commit_index);
        note(out, "applied_beyond_commit", time, v.id, s);
    }
    if v.durable_index > last {
        let s = phrase2("claims ", v.durable_index, " durable with a log of ", last);
        note(out, "durable_beyond_log", time, v.id, s);
    }
    // --- commit monotonicity ---

    if !restarted && v.commit_index < t.commit_index {
        let s = phrase2("commit index went from ", t.commit_index, " to ", v.commit_index);
        note(out, "commit_regression", time, v.id, s);
    }
    // --- the commit rule ---
    // Raft Figure 8: a leader may only advance its commit index onto an entry
    // from its *own* term. Counting replicas of an older entry can commit
    // something a later leader is still entitled to overwrite. Entries below
    // that point are committed implicitly and are fine; it is the index the
    // leader actually lands on that must be current-term.

    if v.role == Role::Leader && v.commit_index > t.commit_index && !restarted {
        if let Some(landed) = v.log.term_at(v.commit_index) {
            if landed != v.term {
                let mut s = phrase2(
                    "leader of term ",
                    v.term,
                    " advanced commit to index ",
                    v.commit_index,
                );
                s.append(", whose entry is from                              term ");
                put_num(&mut s, landed);
                note(out, "commit_of_foreign_term", time, v.id, s);
            }
        }
    }
}

} // verus!
