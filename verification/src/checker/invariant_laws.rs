//! What the continuous checks can be relied on for: nothing they have seen is
//! forgotten, nothing they have found is lost, and each way of breaking a
//! safety property is reported.

use crate::checker::invariants::{
    check_all, check_alone, check_append_only, check_applied_from, check_committed_from, check_complete_from,
    check_completeness, check_election, check_entries, check_entry, check_leader, check_log, check_one,
    command_shown, entries_above, refreshed, AppliedView, Audit, NodeFacts, NodeTrack, RecView, Seen,
};
use crate::checker::report::ViolationView;
use crate::kvstore::log::{EntryView, LogView};
use crate::kvstore::raft_model::Role;
use crate::simcore::{Nanos, NodeId};
use crate::text::decimal;
use vstd::prelude::*;

verus! {

/// Whether a finding of a kind was made.
pub open spec fn found(out: Seq<ViolationView>, kind: Seq<char>) -> bool {
    exists|i: int| 0 <= i < out.len() && (#[trigger] out[i]).kind == kind
}

/// Whether `b` keeps every record of `a`.
pub open spec fn keeps<K, V>(a: Map<K, V>, b: Map<K, V>) -> bool {
    forall|k: K| #[trigger] a.contains_key(k) ==> b.contains_key(k) && b[k] == a[k]
}

/// Whether an audit went on from another: every record and every finding is
/// still there.
pub open spec fn goes_on(a: Audit, b: Audit) -> bool {
    &&& keeps(a.seen.leader_by_term, b.seen.leader_by_term)
    &&& keeps(a.seen.entries, b.seen.entries)
    &&& keeps(a.seen.committed, b.seen.committed)
    &&& keeps(a.seen.applied, b.seen.applied)
    &&& b.seen.max_committed >= a.seen.max_committed
    &&& a.out.len() <= b.out.len()
    &&& forall|i: int| 0 <= i < a.out.len() ==> #[trigger] b.out[i] == a.out[i]
}

pub proof fn lemma_found_stays(a: Audit, b: Audit, kind: Seq<char>)
    requires
        goes_on(a, b),
        found(a.out, kind),
    ensures
        found(b.out, kind),
{
    let i = choose|i: int| 0 <= i < a.out.len() && (#[trigger] a.out[i]).kind == kind;
    assert(b.out[i].kind == kind);
}

proof fn lemma_on(a: Audit, b: Audit, c: Audit)
    requires
        goes_on(a, b),
        goes_on(b, c),
    ensures
        goes_on(a, c),
{
    assert forall|i: int| 0 <= i < a.out.len() implies #[trigger] c.out[i] == a.out[i] by {
        assert(b.out[i] == a.out[i]);
    }
}

proof fn lemma_alone(a: Audit, time: Nanos, v: NodeFacts, t: NodeTrack, restarted: bool)
    ensures
        goes_on(a, check_alone(a, time, v, t, restarted)),
        check_alone(a, time, v, t, restarted).seen == a.seen,
{
}

proof fn lemma_complete_from(a: Audit, time: Nanos, v: NodeFacts, index: int, verified: u64)
    ensures
        goes_on(a, check_complete_from(a, time, v, index, verified).0),
        check_complete_from(a, time, v, index, verified).0.seen == a.seen,
    decreases a.seen.max_committed + 1 - index,
{
    if index <= a.seen.max_committed {
        lemma_complete_from(a, time, v, index + 1, verified);
        lemma_complete_from(a, time, v, index + 1, index as u64);
    }
}

proof fn lemma_leader(a: Audit, time: Nanos, v: NodeFacts)
    ensures
        goes_on(a, check_leader(a, time, v)),
{
    let b = check_election(a, time, v);
    let c = check_append_only(b, time, v);
    let key = (v.id.0, v.term);
    let known = c.seen.leader_verified;
    let verified = if known.contains_key(key) {
        known[key]
    } else {
        0
    };
    lemma_complete_from(c, time, v, verified + 1, verified);
    assert(goes_on(a, b));
    assert(goes_on(b, c));
    assert(goes_on(c, check_completeness(c, time, v)));
    lemma_on(a, b, c);
    lemma_on(a, c, check_completeness(c, time, v));
}

proof fn lemma_entries(a: Audit, time: Nanos, v: NodeFacts, es: Seq<EntryView>, n: nat)
    ensures
        goes_on(a, check_entries(a, time, v, es, n)),
    decreases n,
{
    if n > 0 {
        lemma_entries(a, time, v, es, (n - 1) as nat);
        let b = check_entries(a, time, v, es, (n - 1) as nat);
        assert(goes_on(b, check_entry(b, time, v, es[n - 1])));
        lemma_on(a, b, check_entry(b, time, v, es[n - 1]));
    }
}

proof fn lemma_committed_from(a: Audit, time: Nanos, v: NodeFacts, index: int, checked: u64)
    ensures
        goes_on(a, check_committed_from(a, time, v, index, checked).0),
    decreases v.commit_index + 1 - index,
{
    if index <= v.commit_index && v.log.get(index as u64) is Some {
        let b = commit_step(a, time, v, index as u64);
        assert(goes_on(a, b));
        lemma_committed_from(b, time, v, index + 1, index as u64);
        lemma_on(a, b, check_committed_from(b, time, v, index + 1, index as u64).0);
    }
}

/// One committed index looked at.
pub open spec fn commit_step(a: Audit, time: Nanos, v: NodeFacts, i: u64) -> Audit {
    let e = v.log.get(i)->Some_0;
    let known = a.seen.committed;
    if known.contains_key(i) {
        let rec = known[i];
        a.find_if(
            rec.term != e.term || rec.cmd != e.cmd,
            "committed_entry_changed"@,
            time,
            v.id,
            "committed index "@ + decimal(i as nat) + " was term "@
                + decimal(rec.term as nat) + " "@
                + command_shown(rec.cmd) + ", now term "@
                + decimal(e.term as nat) + " "@
                + command_shown(e.cmd),
        )
    } else {
        Audit {
            seen: Seen {
                committed: known.insert(
                    i,
                    RecView { term: e.term, cmd: e.cmd, committed_in_term: v.term },
                ),
                max_committed: if i > a.seen.max_committed {
                    i
                } else {
                    a.seen.max_committed
                },
                ..a.seen
            },
            ..a
        }
    }
}

proof fn lemma_applied_from(a: Audit, time: Nanos, v: NodeFacts, index: int, checked: u64)
    ensures
        goes_on(a, check_applied_from(a, time, v, index, checked).0),
    decreases v.last_applied + 1 - index,
{
    if index <= v.last_applied && v.log.get(index as u64) is Some {
        let b = apply_step(a, time, v, index as u64);
        assert(goes_on(a, b));
        lemma_applied_from(b, time, v, index + 1, index as u64);
        lemma_on(a, b, check_applied_from(b, time, v, index + 1, index as u64).0);
    }
}

/// One applied index looked at.
pub open spec fn apply_step(a: Audit, time: Nanos, v: NodeFacts, i: u64) -> Audit {
    let e = v.log.get(i)->Some_0;
    let known = a.seen.applied;
    if known.contains_key(i) {
        let rec = known[i];
        a.find_if(
            rec.term != e.term || rec.cmd != e.cmd,
            "state_machine_safety"@,
            time,
            v.id,
            "index "@ + decimal(i as nat) + " applied as term "@
                + decimal(rec.term as nat) + " "@
                + command_shown(rec.cmd) + " elsewhere, but as term "@
                + decimal(e.term as nat) + " "@
                + command_shown(e.cmd) + " here"@,
        )
    } else {
        Audit {
            seen: Seen {
                applied: known.insert(
                    i,
                    AppliedView { term: e.term, cmd: e.cmd },
                ),
                ..a.seen
            },
            ..a
        }
    }
}

proof fn lemma_log(a: Audit, time: Nanos, v: NodeFacts, t: NodeTrack)
    ensures
        goes_on(a, check_log(a, time, v, t)),
{
    let fresh = entries_above(v.log, t.checked_upto);
    lemma_entries(a, time, v, fresh, fresh.len());
    let a1 = check_entries(a, time, v, fresh, fresh.len());
    lemma_committed_from(a1, time, v, t.committed_checked + 1, t.committed_checked);
    let a2 = check_committed_from(a1, time, v, t.committed_checked + 1, t.committed_checked).0;
    lemma_on(a, a1, a2);
    lemma_applied_from(a2, time, v, t.applied_checked + 1, t.applied_checked);
    let a3 = check_applied_from(a2, time, v, t.applied_checked + 1, t.applied_checked).0;
    lemma_on(a, a2, a3);
    assert(goes_on(a3, check_log(a, time, v, t)));
    lemma_on(a, a3, check_log(a, time, v, t));
}

/// The parts of a check, in order.
pub open spec fn stage_alone(a: Audit, time: Nanos, v: NodeFacts) -> Audit {
    let before = a.seen.track(v.id);
    check_alone(a, time, v, refreshed(before, v), before.incarnation != v.incarnation)
}

/// The audit before a node's log is looked at.
pub open spec fn stage_leader(a: Audit, time: Nanos, v: NodeFacts) -> Audit {
    if v.role == Role::Leader {
        check_leader(stage_alone(a, time, v), time, v)
    } else {
        stage_alone(a, time, v)
    }
}

pub proof fn lemma_one(a: Audit, time: Nanos, v: NodeFacts)
    ensures
        goes_on(a, check_one(a, time, v)),
        v.up ==> goes_on(a, stage_alone(a, time, v)) && goes_on(
            stage_alone(a, time, v),
            check_one(a, time, v),
        ) && goes_on(a, stage_leader(a, time, v)) && goes_on(
            stage_leader(a, time, v),
            check_one(a, time, v),
        ) && check_one(a, time, v) == check_log(
            stage_leader(a, time, v),
            time,
            v,
            refreshed(a.seen.track(v.id), v),
        ),
{
    let before = a.seen.track(v.id);
    let t = refreshed(before, v);
    if v.up {
        lemma_alone(a, time, v, t, before.incarnation != v.incarnation);
        let a1 = stage_alone(a, time, v);
        lemma_leader(a1, time, v);
        let a2 = stage_leader(a, time, v);
        lemma_on(a, a1, a2);
        lemma_log(a2, time, v, t);
        lemma_on(a, a2, check_one(a, time, v));
        lemma_on(a1, a2, check_one(a, time, v));
    }
}

/// Checking forgets no record and loses no finding.
pub proof fn law_checks_only_add(a: Audit, time: Nanos, vs: Seq<NodeFacts>, n: nat)
    ensures
        goes_on(a, check_all(a, time, vs, n)),
    decreases n,
{
    if n > 0 {
        law_checks_only_add(a, time, vs, (n - 1) as nat);
        let b = check_all(a, time, vs, (n - 1) as nat);
        lemma_one(b, time, vs[n - 1]);
        lemma_on(a, b, check_all(a, time, vs, n));
    }
}

pub proof fn lemma_check_all_on(a: Audit, time: Nanos, vs: Seq<NodeFacts>, m: nat, n: nat)
    requires
        m <= n,
    ensures
        goes_on(check_all(a, time, vs, m), check_all(a, time, vs, n)),
    decreases n - m,
{
    if m < n {
        lemma_check_all_on(a, time, vs, m, (n - 1) as nat);
        let b = check_all(a, time, vs, (n - 1) as nat);
        lemma_one(b, time, vs[n - 1]);
        lemma_on(check_all(a, time, vs, m), b, check_all(a, time, vs, n));
    }
}

/// A second leader of a term is reported.
proof fn lemma_second_leader(a: Audit, time: Nanos, v: NodeFacts)
    requires
        v.up,
        v.role == Role::Leader,
    ensures
        ({
            let b = check_one(a, time, v);
            &&& a.seen.leader_by_term.contains_key(v.term) && a.seen.leader_by_term[v.term] != v.id
                ==> found(b.out, "election_safety"@)
            &&& b.seen.leader_by_term.contains_key(v.term)
            &&& !found(b.out, "election_safety"@) ==> b.seen.leader_by_term[v.term] == v.id
        }),
{
    lemma_one(a, time, v);
    let s = stage_alone(a, time, v);
    let e = check_election(s, time, v);
    let c = check_append_only(e, time, v);
    let key = (v.id.0, v.term);
    let known = c.seen.leader_verified;
    let verified = if known.contains_key(key) {
        known[key]
    } else {
        0
    };
    lemma_complete_from(c, time, v, verified + 1, verified);
    let l = check_leader(s, time, v);
    assert(goes_on(e, c));
    assert(goes_on(c, l));
    lemma_on(e, c, l);
    lemma_on(e, l, check_one(a, time, v));
    lemma_alone(
        a,
        time,
        v,
        refreshed(a.seen.track(v.id), v),
        a.seen.track(v.id).incarnation != v.incarnation,
    );
    if s.seen.leader_by_term.contains_key(v.term) && s.seen.leader_by_term[v.term] != v.id {
        assert(e.out.last().kind == "election_safety"@);
        assert(e.out[e.out.len() - 1].kind == "election_safety"@);
        lemma_found_stays(e, check_one(a, time, v), "election_safety"@);
    } else {
        assert(e.seen.leader_by_term.contains_key(v.term));
    }
}

/// Election safety: whenever two different nodes are seen leading one term,
/// at whatever moments of a check, it is reported.
pub proof fn law_two_leaders_are_reported(
    a: Audit,
    time: Nanos,
    vs: Seq<NodeFacts>,
    i: int,
    j: int,
)
    requires
        0 <= i < j < vs.len(),
        vs[i].up,
        vs[j].up,
        vs[i].role == Role::Leader,
        vs[j].role == Role::Leader,
        vs[i].term == vs[j].term,
        vs[i].id != vs[j].id,
    ensures
        found(check_all(a, time, vs, vs.len()).out, "election_safety"@),
{
    let (before_i, after_i) = (
        check_all(a, time, vs, i as nat),
        check_all(a, time, vs, (i + 1) as nat),
    );
    let (before_j, after_j) = (
        check_all(a, time, vs, j as nat),
        check_all(a, time, vs, (j + 1) as nat),
    );
    lemma_second_leader(before_i, time, vs[i]);
    lemma_second_leader(before_j, time, vs[j]);
    lemma_check_all_on(a, time, vs, (i + 1) as nat, j as nat);
    lemma_check_all_on(a, time, vs, (i + 1) as nat, vs.len());
    lemma_check_all_on(a, time, vs, (j + 1) as nat, vs.len());
    let end = check_all(a, time, vs, vs.len());
    if found(after_i.out, "election_safety"@) {
        lemma_found_stays(after_i, end, "election_safety"@);
    } else {
        assert(before_j.seen.leader_by_term.contains_key(vs[i].term));
        lemma_found_stays(after_j, end, "election_safety"@);
    }
}

/// Each impossible state of one node is reported: a term below what the node
/// has spoken in, a commit index beyond the log or going backwards, more
/// applied than committed, more durable than there is.
pub proof fn law_impossible_states_are_reported(a: Audit, time: Nanos, v: NodeFacts)
    requires
        v.up,
    ensures
        ({
            let out = check_one(a, time, v).out;
            let t = a.seen.track(v.id);
            &&& v.term < t.acted_term ==> found(out, "term_regression"@)
            &&& v.commit_index > v.log.last_index() ==> found(out, "commit_beyond_log"@)
            &&& v.last_applied > v.commit_index ==> found(out, "applied_beyond_commit"@)
            &&& v.durable_index > v.log.last_index() ==> found(out, "durable_beyond_log"@)
            &&& t.incarnation == v.incarnation && v.commit_index < t.commit_index ==> found(
                out,
                "commit_regression"@,
            )
        }),
{
    lemma_one(a, time, v);
    let s = stage_alone(a, time, v);
    let end = check_one(a, time, v);
    let t = refreshed(a.seen.track(v.id), v);
    let n = a.out.len() as int;
    let last = v.log.last_index();
    let c1 = v.term < t.acted_term;
    let c2 = v.commit_index > last;
    let c3 = v.last_applied > v.commit_index;
    let c4 = v.durable_index > last;
    let c5 = a.seen.track(v.id).incarnation == v.incarnation && v.commit_index < t.commit_index;
    let p1 = n;
    let p2 = p1 + (if c1 {
        1int
    } else {
        0
    });
    let p3 = p2 + (if c2 {
        1int
    } else {
        0
    });
    let p4 = p3 + (if c3 {
        1int
    } else {
        0
    });
    let p5 = p4 + (if c4 {
        1int
    } else {
        0
    });
    if c1 {
        assert(s.out[p1].kind == "term_regression"@);
        lemma_found_stays(s, end, "term_regression"@);
    }
    if c2 {
        assert(s.out[p2].kind == "commit_beyond_log"@);
        lemma_found_stays(s, end, "commit_beyond_log"@);
    }
    if c3 {
        assert(s.out[p3].kind == "applied_beyond_commit"@);
        lemma_found_stays(s, end, "applied_beyond_commit"@);
    }
    if c4 {
        assert(s.out[p4].kind == "durable_beyond_log"@);
        lemma_found_stays(s, end, "durable_beyond_log"@);
    }
    if c5 {
        assert(s.out[p5].kind == "commit_regression"@);
        lemma_found_stays(s, end, "commit_regression"@);
    }
}

/// A node seen down is judged on nothing, and comes back with a clean slate:
/// returning at zero is not a regression.
pub proof fn law_down_nodes_are_not_judged(a: Audit, time: Nanos, v: NodeFacts)
    requires
        !v.up,
    ensures
        check_one(a, time, v).out == a.out,
        check_one(a, time, v).seen.track(v.id).commit_index == 0,
        check_one(a, time, v).seen.track(v.id).checked_upto == 0,
        check_one(a, time, v).seen.track(v.id).acted_term == a.seen.track(v.id).acted_term,
{
}

proof fn lemma_entry_found(
    a: Audit,
    time: Nanos,
    v: NodeFacts,
    es: Seq<EntryView>,
    n: nat,
    k: int,
)
    requires
        0 <= k < n <= es.len(),
        a.seen.entries.contains_key((es[k].index, es[k].term)),
        a.seen.entries[(es[k].index, es[k].term)] != es[k].cmd,
    ensures
        found(check_entries(a, time, v, es, n).out, "log_matching"@),
    decreases n,
{
    let b = check_entries(a, time, v, es, (n - 1) as nat);
    let c = check_entries(a, time, v, es, n);
    assert(goes_on(b, c));
    if k == n - 1 {
        lemma_entries(a, time, v, es, (n - 1) as nat);
        assert(c.out[c.out.len() - 1].kind == "log_matching"@);
    } else {
        lemma_entry_found(a, time, v, es, (n - 1) as nat, k);
        lemma_found_stays(b, c, "log_matching"@);
    }
}

/// Log matching: an entry not looked at before whose index and term were seen
/// to name another command is reported.
pub proof fn law_conflicting_entries_are_reported(a: Audit, time: Nanos, v: NodeFacts, k: int)
    requires
        v.up,
        ({
            let fresh = entries_above(v.log, refreshed(a.seen.track(v.id), v).checked_upto);
            &&& 0 <= k < fresh.len()
            &&& a.seen.entries.contains_key((fresh[k].index, fresh[k].term))
            &&& a.seen.entries[(fresh[k].index, fresh[k].term)] != fresh[k].cmd
        }),
    ensures
        found(check_one(a, time, v).out, "log_matching"@),
{
    lemma_one(a, time, v);
    let t = refreshed(a.seen.track(v.id), v);
    let fresh = entries_above(v.log, t.checked_upto);
    let s = stage_leader(a, time, v);
    lemma_entry_found(s, time, v, fresh, fresh.len(), k);
    let a1 = check_entries(s, time, v, fresh, fresh.len());
    lemma_committed_from(a1, time, v, t.committed_checked + 1, t.committed_checked);
    let a2 = check_committed_from(a1, time, v, t.committed_checked + 1, t.committed_checked).0;
    lemma_applied_from(a2, time, v, t.applied_checked + 1, t.applied_checked);
    let a3 = check_applied_from(a2, time, v, t.applied_checked + 1, t.applied_checked).0;
    lemma_found_stays(a1, a2, "log_matching"@);
    lemma_found_stays(a2, a3, "log_matching"@);
    lemma_found_stays(a3, check_one(a, time, v), "log_matching"@);
}

proof fn lemma_commit_found(
    a: Audit,
    time: Nanos,
    v: NodeFacts,
    index: int,
    checked: u64,
    i: u64,
)
    requires
        0 < index <= i <= v.commit_index,
        forall|j: u64| index <= j <= i ==> (#[trigger] v.log.get(j)) is Some,
        a.seen.committed.contains_key(i),
        ({
            let e = v.log.get(i)->Some_0;
            a.seen.committed[i].term != e.term || a.seen.committed[i].cmd != e.cmd
        }),
    ensures
        found(
            check_committed_from(a, time, v, index, checked).0.out,
            "committed_entry_changed"@,
        ),
    decreases i - index,
{
    assert(v.log.get(index as u64) is Some);
    let b = commit_step(a, time, v, index as u64);
    assert(goes_on(a, b));
    lemma_committed_from(b, time, v, index + 1, index as u64);
    if index == i {
        assert(b.out[b.out.len() - 1].kind == "committed_entry_changed"@);
        lemma_found_stays(
            b,
            check_committed_from(b, time, v, index + 1, index as u64).0,
            "committed_entry_changed"@,
        );
    } else {
        lemma_commit_found(b, time, v, index + 1, index as u64, i);
    }
}

/// Committed entries are immutable: a node that reports an index committed
/// with another entry than was seen committed there, past its watermark, is
/// reported.
pub proof fn law_changed_commits_are_reported(a: Audit, time: Nanos, v: NodeFacts, i: u64)
    requires
        v.up,
        ({
            let t = refreshed(a.seen.track(v.id), v);
            t.committed_checked < i <= v.commit_index && forall|j: u64|
                t.committed_checked < j <= i ==> (#[trigger] v.log.get(j)) is Some
        }),
        a.seen.committed.contains_key(i),
        ({
            let e = v.log.get(i)->Some_0;
            a.seen.committed[i].term != e.term || a.seen.committed[i].cmd != e.cmd
        }),
    ensures
        found(check_one(a, time, v).out, "committed_entry_changed"@),
{
    lemma_one(a, time, v);
    let t = refreshed(a.seen.track(v.id), v);
    let fresh = entries_above(v.log, t.checked_upto);
    let s = stage_leader(a, time, v);
    lemma_entries(s, time, v, fresh, fresh.len());
    let a1 = check_entries(s, time, v, fresh, fresh.len());
    lemma_on(a, s, a1);
    lemma_commit_found(a1, time, v, t.committed_checked + 1, t.committed_checked, i);
    let a2 = check_committed_from(a1, time, v, t.committed_checked + 1, t.committed_checked).0;
    lemma_applied_from(a2, time, v, t.applied_checked + 1, t.applied_checked);
    let a3 = check_applied_from(a2, time, v, t.applied_checked + 1, t.applied_checked).0;
    lemma_found_stays(a2, a3, "committed_entry_changed"@);
    lemma_found_stays(a3, check_one(a, time, v), "committed_entry_changed"@);
}

proof fn lemma_apply_found(
    a: Audit,
    time: Nanos,
    v: NodeFacts,
    index: int,
    checked: u64,
    i: u64,
)
    requires
        0 < index <= i <= v.last_applied,
        forall|j: u64| index <= j <= i ==> (#[trigger] v.log.get(j)) is Some,
        a.seen.applied.contains_key(i),
        ({
            let e = v.log.get(i)->Some_0;
            a.seen.applied[i].term != e.term || a.seen.applied[i].cmd != e.cmd
        }),
    ensures
        found(check_applied_from(a, time, v, index, checked).0.out, "state_machine_safety"@),
    decreases i - index,
{
    assert(v.log.get(index as u64) is Some);
    let b = apply_step(a, time, v, index as u64);
    assert(goes_on(a, b));
    lemma_applied_from(b, time, v, index + 1, index as u64);
    if index == i {
        assert(b.out[b.out.len() - 1].kind == "state_machine_safety"@);
        lemma_found_stays(
            b,
            check_applied_from(b, time, v, index + 1, index as u64).0,
            "state_machine_safety"@,
        );
    } else {
        lemma_apply_found(b, time, v, index + 1, index as u64, i);
    }
}

/// State machine safety: a node that has applied another entry at an index
/// than was seen applied there, past its watermark, is reported.
pub proof fn law_divergent_applies_are_reported(a: Audit, time: Nanos, v: NodeFacts, i: u64)
    requires
        v.up,
        ({
            let t = refreshed(a.seen.track(v.id), v);
            t.applied_checked < i <= v.last_applied && forall|j: u64|
                t.applied_checked < j <= i ==> (#[trigger] v.log.get(j)) is Some
        }),
        a.seen.applied.contains_key(i),
        ({
            let e = v.log.get(i)->Some_0;
            a.seen.applied[i].term != e.term || a.seen.applied[i].cmd != e.cmd
        }),
    ensures
        found(check_one(a, time, v).out, "state_machine_safety"@),
{
    lemma_one(a, time, v);
    let t = refreshed(a.seen.track(v.id), v);
    let fresh = entries_above(v.log, t.checked_upto);
    let s = stage_leader(a, time, v);
    lemma_entries(s, time, v, fresh, fresh.len());
    let a1 = check_entries(s, time, v, fresh, fresh.len());
    lemma_on(a, s, a1);
    lemma_committed_from(a1, time, v, t.committed_checked + 1, t.committed_checked);
    let a2 = check_committed_from(a1, time, v, t.committed_checked + 1, t.committed_checked).0;
    lemma_on(a, a1, a2);
    lemma_apply_found(a2, time, v, t.applied_checked + 1, t.applied_checked, i);
    let a3 = check_applied_from(a2, time, v, t.applied_checked + 1, t.applied_checked).0;
    lemma_found_stays(a3, check_one(a, time, v), "state_machine_safety"@);
}

/// Whether a log lacks a committed entry: it ends before it, or holds another.
pub open spec fn lacks(log: LogView, i: u64, rec: RecView) -> bool {
    i > log.last_index() || (log.get(i) matches Some(e) && (e.term != rec.term || e.cmd != rec.cmd))
}

/// Whether findings of a kind about a node came in after `a`.
pub open spec fn adds(a: Audit, b: Audit, kind: Seq<char>, node: NodeId) -> bool {
    exists|k: int|
        a.out.len() <= k < b.out.len() && (#[trigger] b.out[k]).kind == kind && b.out[k].node
            == Some(node)
}

/// Whether no finding of a kind came in after `a`.
pub open spec fn quiet(a: Audit, b: Audit, kind: Seq<char>) -> bool {
    forall|k: int| a.out.len() <= k < b.out.len() ==> (#[trigger] b.out[k]).kind != kind
}

/// How far a leadership has been verified.
pub open spec fn verified_upto(a: Audit, v: NodeFacts) -> u64 {
    let key = (v.id.0, v.term);
    if a.seen.leader_verified.contains_key(key) {
        a.seen.leader_verified[key]
    } else {
        0
    }
}

/// Whether a leader must hold the entry at `i` and does not.
pub open spec fn misses(a: Audit, v: NodeFacts, i: u64) -> bool {
    &&& i <= a.seen.max_committed
    &&& a.seen.committed.contains_key(i)
    &&& a.seen.committed[i].committed_in_term < v.term
    &&& lacks(v.log, i, a.seen.committed[i])
}

/// A completeness finding has a kind of its own.
proof fn lemma_completeness_kind()
    ensures
        "leader_completeness"@ != "term_regression"@,
        "leader_completeness"@ != "commit_beyond_log"@,
        "leader_completeness"@ != "applied_beyond_commit"@,
        "leader_completeness"@ != "durable_beyond_log"@,
        "leader_completeness"@ != "commit_regression"@,
        "leader_completeness"@ != "commit_of_foreign_term"@,
        "leader_completeness"@ != "election_safety"@,
        "leader_completeness"@ != "leader_append_only"@,
        "leader_completeness"@ != "log_matching"@,
        "leader_completeness"@ != "committed_entry_changed"@,
        "leader_completeness"@ != "state_machine_safety"@,
{
    reveal_strlit("leader_completeness");
    assert("leader_completeness"@.len() == 19);
    reveal_strlit("term_regression");
    assert("term_regression"@.len() == 15);
    reveal_strlit("commit_beyond_log");
    assert("commit_beyond_log"@.len() == 17);
    reveal_strlit("applied_beyond_commit");
    assert("applied_beyond_commit"@.len() == 21);
    reveal_strlit("durable_beyond_log");
    assert("durable_beyond_log"@.len() == 18);
    reveal_strlit("commit_regression");
    assert("commit_regression"@.len() == 17);
    reveal_strlit("commit_of_foreign_term");
    assert("commit_of_foreign_term"@.len() == 22);
    reveal_strlit("election_safety");
    assert("election_safety"@.len() == 15);
    reveal_strlit("leader_append_only");
    assert("leader_append_only"@.len() == 18);
    reveal_strlit("log_matching");
    assert("log_matching"@.len() == 12);
    reveal_strlit("committed_entry_changed");
    assert("committed_entry_changed"@.len() == 23);
    reveal_strlit("state_machine_safety");
    assert("state_machine_safety"@.len() == 20);
}

proof fn lemma_quiet(a: Audit, b: Audit, c: Audit, kind: Seq<char>)
    requires
        goes_on(b, c),
        quiet(a, b, kind),
        quiet(b, c, kind),
    ensures
        quiet(a, c, kind),
{
    assert forall|k: int| a.out.len() <= k < c.out.len() implies (#[trigger] c.out[k]).kind
        != kind by {
        if k < b.out.len() {
            assert(c.out[k] == b.out[k]);
        }
    }
}

proof fn lemma_entries_quiet(a: Audit, time: Nanos, v: NodeFacts, es: Seq<EntryView>, n: nat)
    ensures
        quiet(a, check_entries(a, time, v, es, n), "leader_completeness"@),
    decreases n,
{
    if n > 0 {
        lemma_completeness_kind();
        lemma_entries_quiet(a, time, v, es, (n - 1) as nat);
        let b = check_entries(a, time, v, es, (n - 1) as nat);
        let c = check_entry(b, time, v, es[n - 1]);
        assert(goes_on(b, c));
        lemma_quiet(a, b, c, "leader_completeness"@);
    }
}

proof fn lemma_committed_quiet(a: Audit, time: Nanos, v: NodeFacts, index: int, checked: u64)
    ensures
        quiet(
            a,
            check_committed_from(a, time, v, index, checked).0,
            "leader_completeness"@,
        ),
    decreases v.commit_index + 1 - index,
{
    if index <= v.commit_index && v.log.get(index as u64) is Some {
        lemma_completeness_kind();
        let b = commit_step(a, time, v, index as u64);
        lemma_committed_from(b, time, v, index + 1, index as u64);
        lemma_committed_quiet(b, time, v, index + 1, index as u64);
        lemma_quiet(
            a,
            b,
            check_committed_from(b, time, v, index + 1, index as u64).0,
            "leader_completeness"@,
        );
    }
}

proof fn lemma_applied_quiet(a: Audit, time: Nanos, v: NodeFacts, index: int, checked: u64)
    ensures
        quiet(a, check_applied_from(a, time, v, index, checked).0, "leader_completeness"@),
    decreases v.last_applied + 1 - index,
{
    if index <= v.last_applied && v.log.get(index as u64) is Some {
        lemma_completeness_kind();
        let b = apply_step(a, time, v, index as u64);
        lemma_applied_from(b, time, v, index + 1, index as u64);
        lemma_applied_quiet(b, time, v, index + 1, index as u64);
        lemma_quiet(
            a,
            b,
            check_applied_from(b, time, v, index + 1, index as u64).0,
            "leader_completeness"@,
        );
    }
}

proof fn lemma_log_quiet(a: Audit, time: Nanos, v: NodeFacts, t: NodeTrack)
    ensures
        quiet(a, check_log(a, time, v, t), "leader_completeness"@),
{
    let fresh = entries_above(v.log, t.checked_upto);
    let a1 = check_entries(a, time, v, fresh, fresh.len());
    let a2 = check_committed_from(a1, time, v, t.committed_checked + 1, t.committed_checked).0;
    let a3 = check_applied_from(a2, time, v, t.applied_checked + 1, t.applied_checked).0;
    lemma_entries_quiet(a, time, v, fresh, fresh.len());
    lemma_committed_quiet(a1, time, v, t.committed_checked + 1, t.committed_checked);
    lemma_applied_quiet(a2, time, v, t.applied_checked + 1, t.applied_checked);
    lemma_committed_from(a1, time, v, t.committed_checked + 1, t.committed_checked);
    lemma_applied_from(a2, time, v, t.applied_checked + 1, t.applied_checked);
    lemma_quiet(a, a1, a2, "leader_completeness"@);
    lemma_quiet(a, a2, a3, "leader_completeness"@);
    assert(check_log(a, time, v, t).out == a3.out);
}

proof fn lemma_alone_quiet(a: Audit, time: Nanos, v: NodeFacts)
    ensures
        quiet(a, stage_alone(a, time, v), "leader_completeness"@),
{
    lemma_completeness_kind();
}

/// Walking the committed entries makes one finding where one is missing, and
/// none where none is.
proof fn lemma_walk_exact(a: Audit, time: Nanos, v: NodeFacts, index: int, verified: u64)
    requires
        0 < index,
    ensures
        ({
            let end = check_complete_from(a, time, v, index, verified).0;
            let due = exists|i: u64| index <= i && #[trigger] misses(a, v, i);
            &&& !due ==> end.out == a.out
            &&& due ==> end.out.len() == a.out.len() + 1 && end.out.last().kind
                == "leader_completeness"@ && end.out.last().node == Some(v.id)
        }),
    decreases a.seen.max_committed + 1 - index,
{
    let due = exists|i: u64| index <= i && #[trigger] misses(a, v, i);
    let later = exists|i: u64| index + 1 <= i && #[trigger] misses(a, v, i);
    if index <= a.seen.max_committed {
        let i = index as u64;
        lemma_walk_exact(a, time, v, index + 1, verified);
        lemma_walk_exact(a, time, v, index + 1, i);
        if misses(a, v, i) {
            assert(due);
        } else {
            if due {
                let w = choose|w: u64| index <= w && #[trigger] misses(a, v, w);
                assert(w != i);
                assert(index + 1 <= w && misses(a, v, w));
                assert(later);
            }
            if later {
                let w = choose|w: u64| index + 1 <= w && #[trigger] misses(a, v, w);
                assert(index <= w && misses(a, v, w));
            }
            assert(due == later);
        }
    } else if due {
        let w = choose|w: u64| index <= w && #[trigger] misses(a, v, w);
        assert(w <= a.seen.max_committed);
    }
}

/// Leader completeness, exactly: looking at a running leader reports it as
/// incomplete if and only if its log lacks an entry, past what was verified of
/// this leadership, that was committed in an earlier term. Looking at any other
/// node reports no such thing.
pub proof fn law_completeness_is_exact(a: Audit, time: Nanos, v: NodeFacts)
    ensures
        ({
            let b = check_one(a, time, v);
            let due = v.up && v.role == Role::Leader && exists|i: u64|
                verified_upto(a, v) < i && #[trigger] misses(a, v, i);
            &&& due ==> adds(a, b, "leader_completeness"@, v.id)
            &&& !due ==> quiet(a, b, "leader_completeness"@)
        }),
{
    if v.up {
        let kind = "leader_completeness"@;
        let b = check_one(a, time, v);
        let s = stage_alone(a, time, v);
        let l = stage_leader(a, time, v);
        let t = refreshed(a.seen.track(v.id), v);
        lemma_one(a, time, v);
        lemma_alone(a, time, v, t, a.seen.track(v.id).incarnation != v.incarnation);
        lemma_alone_quiet(a, time, v);
        lemma_log_quiet(l, time, v, t);
        if v.role == Role::Leader {
            lemma_completeness_kind();
            let c = check_append_only(check_election(s, time, v), time, v);
            let verified = verified_upto(a, v);
            assert(c.seen.leader_verified == a.seen.leader_verified);
            assert(c.seen.committed == a.seen.committed);
            assert(c.seen.max_committed == a.seen.max_committed);
            assert forall|i: u64| #[trigger] misses(c, v, i) == misses(a, v, i) by {}
            lemma_walk_exact(c, time, v, verified + 1, verified);
            let walked = check_complete_from(c, time, v, verified + 1, verified).0;
            assert(l.out == walked.out);
            assert(goes_on(s, c));
            assert(quiet(s, c, kind));
            lemma_quiet(a, s, c, kind);
            if exists|i: u64| verified < i && #[trigger] misses(a, v, i) {
                let i = choose|i: u64| verified < i && #[trigger] misses(a, v, i);
                assert(verified + 1 <= i && misses(c, v, i));
                let k = l.out.len() - 1;
                assert(b.out[k] == l.out[k]);
                assert(a.out.len() <= k);
            } else {
                assert(quiet(a, l, kind));
                lemma_quiet(a, l, b, kind);
            }
        } else {
            lemma_quiet(a, s, b, kind);
        }
    }
}

/// Leader completeness: a leader that lacks an entry committed in an earlier
/// term, past what was verified of this leadership, is reported.
pub proof fn law_incomplete_leaders_are_reported(a: Audit, time: Nanos, v: NodeFacts, i: u64)
    requires
        v.up,
        v.role == Role::Leader,
        verified_upto(a, v) < i,
        misses(a, v, i),
    ensures
        adds(a, check_one(a, time, v), "leader_completeness"@, v.id),
{
    law_completeness_is_exact(a, time, v);
}

/// A leader is bound by what was committed in earlier terms only: where every
/// commit past what was verified of it was first seen in its own term or a
/// later one, looking at it makes no completeness finding, whatever its log
/// lacks.
pub proof fn law_later_commits_bind_no_leader(a: Audit, time: Nanos, v: NodeFacts)
    requires
        forall|i: u64|
            verified_upto(a, v) < i && #[trigger] a.seen.committed.contains_key(i)
                ==> a.seen.committed[i].committed_in_term >= v.term,
    ensures
        quiet(a, check_one(a, time, v), "leader_completeness"@),
{
    law_completeness_is_exact(a, time, v);
    assert forall|i: u64| verified_upto(a, v) < i implies !(#[trigger] misses(a, v, i)) by {
        if misses(a, v, i) {
            assert(a.seen.committed.contains_key(i));
        }
    }
}

/// The same of one look at one node, from a memory of what was seen: a leader
/// first seen leading its term is reported as incomplete if and only if it
/// lacks an entry first reported committed in an earlier term.
pub proof fn law_observing_one_leader(s: Seen, time: Nanos, v: NodeFacts)
    requires
        v.up,
        v.role == Role::Leader,
        !s.leader_verified.contains_key((v.id.0, v.term)),
    ensures
        ({
            let a = Audit { seen: s, out: Seq::empty() };
            let b = check_all(a, time, seq![v], 1);
            let due = exists|i: u64| 0 < i && #[trigger] misses(a, v, i);
            &&& due ==> adds(a, b, "leader_completeness"@, v.id)
            &&& !due ==> !found(b.out, "leader_completeness"@)
        }),
{
    let a = Audit { seen: s, out: Seq::empty() };
    law_completeness_is_exact(a, time, v);
    reveal_with_fuel(check_all, 2);
    assert(check_all(a, time, seq![v], 1) == check_one(a, time, v));
}

} // verus!
