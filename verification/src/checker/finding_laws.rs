//! Why the continuous checks report what they report, and what they remember:
//! every finding has its cause in what was seen, and what was seen once is what
//! later looks are held against.

use crate::checker::invariant_laws::{
    adds, apply_step, commit_step, found, law_changed_commits_are_reported,
    law_conflicting_entries_are_reported, law_divergent_applies_are_reported, lemma_check_all_on,
    lemma_found_stays, lemma_one, misses, stage_alone, stage_leader, verified_upto,
};
use crate::checker::invariants::{
    check_all, check_append_only, check_applied_from, check_committed_from, check_complete_from,
    check_completeness, check_election, check_entries, check_entry, check_log, check_one, entries_above,
    refreshed, AppliedView, Audit, NodeFacts, NodeTrack, RecView, Seen,
};
use crate::checker::report::ViolationView;
use crate::kvstore::log::{EntryView, LogView};
use crate::kvstore::raft_model::Role;
use crate::simcore::{Nanos, NodeId};
use vstd::prelude::*;

verus! {

/// The longest log a node was seen with while it led this term.
pub open spec fn longest_led(a: Audit, v: NodeFacts) -> u64 {
    let key = (v.id.0, v.term);
    if a.seen.leader_log_len.contains_key(key) {
        a.seen.leader_log_len[key]
    } else {
        0
    }
}

/// Whether a finding has a cause in what a node shows and what was seen before.
pub open spec fn explained(a: Audit, time: Nanos, v: NodeFacts, x: ViolationView) -> bool {
    let was = a.seen.track(v.id);
    let t = refreshed(was, v);
    let fresh = entries_above(v.log, t.checked_upto);
    &&& x.node == Some(v.id)
    &&& x.time == time
    &&& {
        ||| x.kind == "term_regression"@ && v.term < was.acted_term
        ||| x.kind == "commit_beyond_log"@ && v.commit_index > v.log.last_index()
        ||| x.kind == "applied_beyond_commit"@ && v.last_applied > v.commit_index
        ||| x.kind == "durable_beyond_log"@ && v.durable_index > v.log.last_index()
        ||| x.kind == "commit_regression"@ && v.incarnation == was.incarnation && v.commit_index
            < was.commit_index
        ||| x.kind == "commit_of_foreign_term"@ && v.role == Role::Leader && v.incarnation
            == was.incarnation && v.commit_index > was.commit_index && v.log.term_at(v.commit_index) is Some
            && v.log.term_at(v.commit_index)->Some_0 != v.term
        ||| x.kind == "election_safety"@ && v.role == Role::Leader
            && a.seen.leader_by_term.contains_key(v.term) && a.seen.leader_by_term[v.term] != v.id
        ||| x.kind == "leader_append_only"@ && v.role == Role::Leader && v.log.last_index()
            < longest_led(a, v)
        ||| x.kind == "leader_completeness"@ && v.role == Role::Leader && exists|i: u64|
            verified_upto(a, v) < i && #[trigger] misses(a, v, i)
        ||| x.kind == "log_matching"@ && exists|k: int|
            0 <= k < fresh.len() && a.seen.entries.contains_key(
                ((#[trigger] fresh[k]).index, fresh[k].term),
            ) && a.seen.entries[(fresh[k].index, fresh[k].term)] != fresh[k].cmd
        ||| x.kind == "committed_entry_changed"@ && exists|i: u64|
            t.committed_checked < i <= v.commit_index && (#[trigger] v.log.get(i)) is Some
                && a.seen.committed.contains_key(i) && (a.seen.committed[i].term
                != v.log.get(i)->Some_0.term || a.seen.committed[i].cmd != v.log.get(i)->Some_0.cmd)
        ||| x.kind == "state_machine_safety"@ && exists|i: u64|
            t.applied_checked < i <= v.last_applied && (#[trigger] v.log.get(i)) is Some
                && a.seen.applied.contains_key(i) && (a.seen.applied[i].term
                != v.log.get(i)->Some_0.term || a.seen.applied[i].cmd != v.log.get(i)->Some_0.cmd)
    }
}

/// Whether everything found between two audits has its cause in the first look.
pub open spec fn caused(a: Audit, time: Nanos, v: NodeFacts, b: Audit, c: Audit) -> bool {
    &&& b.out.len() <= c.out.len()
    &&& forall|k: int| 0 <= k < b.out.len() ==> #[trigger] c.out[k] == b.out[k]
    &&& forall|k: int| b.out.len() <= k < c.out.len() ==> explained(a, time, v, #[trigger] c.out[k])
}

proof fn lemma_caused(a: Audit, time: Nanos, v: NodeFacts, b: Audit, c: Audit, d: Audit)
    requires
        caused(a, time, v, b, c),
        caused(a, time, v, c, d),
    ensures
        caused(a, time, v, b, d),
{
    assert forall|k: int| b.out.len() <= k < d.out.len() implies explained(
        a,
        time,
        v,
        #[trigger] d.out[k],
    ) by {
        if k < c.out.len() {
            assert(d.out[k] == c.out[k]);
        }
    }
    assert forall|k: int| 0 <= k < b.out.len() implies #[trigger] d.out[k] == b.out[k] by {
        assert(c.out[k] == b.out[k]);
    }
}

proof fn lemma_alone_caused(a: Audit, time: Nanos, v: NodeFacts)
    ensures
        caused(a, time, v, a, stage_alone(a, time, v)),
        stage_alone(a, time, v).seen == a.seen,
{
}

proof fn lemma_complete_caused(
    a: Audit,
    b: Audit,
    time: Nanos,
    v: NodeFacts,
    index: int,
    verified: u64,
)
    requires
        v.role == Role::Leader,
        b.seen.committed == a.seen.committed,
        b.seen.max_committed == a.seen.max_committed,
        verified_upto(a, v) < index,
    ensures
        caused(a, time, v, b, check_complete_from(b, time, v, index, verified).0),
        check_complete_from(b, time, v, index, verified).0.seen == b.seen,
    decreases b.seen.max_committed + 1 - index,
{
    if index <= b.seen.max_committed {
        let i = index as u64;
        lemma_complete_caused(a, b, time, v, index + 1, verified);
        lemma_complete_caused(a, b, time, v, index + 1, i);
        if misses(a, v, i) {
            assert(verified_upto(a, v) < i && misses(a, v, i));
        }
    }
}

proof fn lemma_leader_caused(a: Audit, time: Nanos, v: NodeFacts)
    requires
        v.role == Role::Leader,
    ensures
        caused(a, time, v, a, stage_leader(a, time, v)),
        ({
            let s = stage_leader(a, time, v).seen;
            &&& s.entries == a.seen.entries
            &&& s.committed == a.seen.committed
            &&& s.applied == a.seen.applied
            &&& s.nodes == a.seen.nodes
            &&& s.max_committed == a.seen.max_committed
            &&& s.leader_log_len == a.seen.leader_log_len.insert(
                (v.id.0, v.term),
                if v.log.last_index() > longest_led(a, v) {
                    v.log.last_index()
                } else {
                    longest_led(a, v)
                },
            )
        }),
{
    let s = stage_alone(a, time, v);
    lemma_alone_caused(a, time, v);
    let b = check_election(s, time, v);
    assert(caused(a, time, v, s, b));
    let c = check_append_only(b, time, v);
    assert(caused(a, time, v, b, c));
    let verified = verified_upto(a, v);
    assert(c.seen.leader_verified == a.seen.leader_verified);
    lemma_complete_caused(a, c, time, v, verified + 1, verified);
    let d = check_completeness(c, time, v);
    assert(d.out == check_complete_from(c, time, v, verified + 1, verified).0.out);
    assert(caused(a, time, v, c, d));
    lemma_caused(a, time, v, a, s, b);
    lemma_caused(a, time, v, a, b, c);
    lemma_caused(a, time, v, a, c, d);
}

/// Whether entries have indices of their own.
pub open spec fn distinct(es: Seq<EntryView>) -> bool {
    forall|i: int, j: int|
        0 <= i < j < es.len() ==> (#[trigger] es[i]).index != (#[trigger] es[j]).index
}

proof fn lemma_fresh_distinct(log: LogView, index: u64)
    requires
        log.wf(),
    ensures
        distinct(entries_above(log, index)),
{
    let es = entries_above(log, index);
    assert forall|i: int, j: int| 0 <= i < j < es.len() implies (#[trigger] es[i]).index != (
    #[trigger] es[j]).index by {
        let shift = if index <= log.snapshot_index {
            0
        } else {
            index - log.snapshot_index
        };
        assert(es[i] == log.entries[i + shift]);
        assert(es[j] == log.entries[j + shift]);
    }
}

proof fn lemma_entries_caused(a: Audit, b: Audit, time: Nanos, v: NodeFacts, n: nat)
    requires
        b.seen.entries == a.seen.entries,
        ({
            let fresh = entries_above(v.log, refreshed(a.seen.track(v.id), v).checked_upto);
            n <= fresh.len() && distinct(fresh)
        }),
    ensures
        ({
            let fresh = entries_above(v.log, refreshed(a.seen.track(v.id), v).checked_upto);
            let c = check_entries(b, time, v, fresh, n);
            &&& caused(a, time, v, b, c)
            &&& forall|key: (u64, u64)| #[trigger]
                c.seen.entries.contains_key(key) <==> (a.seen.entries.contains_key(key) || exists|k: int|
                    0 <= k < n && key == ((#[trigger] fresh[k]).index, fresh[k].term))
            &&& forall|key: (u64, u64)|
                a.seen.entries.contains_key(key) ==> #[trigger] c.seen.entries[key]
                    == a.seen.entries[key]
            &&& forall|k: int|
                0 <= k < n && !a.seen.entries.contains_key(
                    ((#[trigger] fresh[k]).index, fresh[k].term),
                ) ==> c.seen.entries[(fresh[k].index, fresh[k].term)] == fresh[k].cmd
            &&& c.seen.committed == b.seen.committed
            &&& c.seen.applied == b.seen.applied
            &&& c.seen.nodes == b.seen.nodes
            &&& c.seen.max_committed == b.seen.max_committed
            &&& c.seen.leader_log_len == b.seen.leader_log_len
            &&& c.seen.leader_by_term == b.seen.leader_by_term
        }),
    decreases n,
{
    if n > 0 {
        let fresh = entries_above(v.log, refreshed(a.seen.track(v.id), v).checked_upto);
        lemma_entries_caused(a, b, time, v, (n - 1) as nat);
        let c = check_entries(b, time, v, fresh, (n - 1) as nat);
        let e = fresh[n - 1];
        let d = check_entry(c, time, v, e);
        let key = (e.index, e.term);
        assert(c.seen.entries.contains_key(key) == a.seen.entries.contains_key(key)) by {
            if exists|k: int| 0 <= k < n - 1 && key == ((#[trigger] fresh[k]).index, fresh[k].term) {
                let k = choose|k: int|
                    0 <= k < n - 1 && key == ((#[trigger] fresh[k]).index, fresh[k].term);
                assert(fresh[k].index != fresh[n - 1].index);
            }
        }
        assert(d == check_entries(b, time, v, fresh, n));
        assert(caused(a, time, v, c, d));
        lemma_caused(a, time, v, b, c, d);
        assert forall|q: (u64, u64)| #[trigger]
            d.seen.entries.contains_key(q) <==> (a.seen.entries.contains_key(q) || exists|k: int|
                0 <= k < n && q == ((#[trigger] fresh[k]).index, fresh[k].term)) by {
            if d.seen.entries.contains_key(q) && !a.seen.entries.contains_key(q) {
                if q == key {
                    assert(q == (fresh[n - 1].index, fresh[n - 1].term));
                }
            }
            if exists|k: int| 0 <= k < n && q == ((#[trigger] fresh[k]).index, fresh[k].term) {
                let k = choose|k: int|
                    0 <= k < n && q == ((#[trigger] fresh[k]).index, fresh[k].term);
                if k < n - 1 {
                    assert(c.seen.entries.contains_key(q));
                }
            }
        }
        assert forall|k: int|
            0 <= k < n && !a.seen.entries.contains_key(
                ((#[trigger] fresh[k]).index, fresh[k].term),
            ) implies d.seen.entries[(fresh[k].index, fresh[k].term)] == fresh[k].cmd by {
            if k < n - 1 {
                assert(fresh[k].index != fresh[n - 1].index);
            }
        }
    }
}

/// Whether a log holds every index from one to another.
pub open spec fn holds_from(log: LogView, from: int, to: u64) -> bool {
    forall|j: u64| from <= j <= to ==> (#[trigger] log.get(j)) is Some
}

proof fn lemma_committed_caused(
    a: Audit,
    b: Audit,
    time: Nanos,
    v: NodeFacts,
    index: int,
    checked: u64,
)
    requires
        refreshed(a.seen.track(v.id), v).committed_checked < index,
        checked < index,
        forall|i: u64|
            index <= i ==> (#[trigger] b.seen.committed.contains_key(i)
                == a.seen.committed.contains_key(i)),
        forall|i: u64|
            index <= i && a.seen.committed.contains_key(i) ==> #[trigger] b.seen.committed[i]
                == a.seen.committed[i],
    ensures
        ({
            let (c, upto) = check_committed_from(b, time, v, index, checked);
            &&& caused(a, time, v, b, c)
            &&& c.seen.applied == b.seen.applied
            &&& c.seen.nodes == b.seen.nodes
            &&& c.seen.entries == b.seen.entries
            &&& c.seen.leader_log_len == b.seen.leader_log_len
            &&& c.seen.leader_by_term == b.seen.leader_by_term
            &&& c.seen.max_committed >= b.seen.max_committed
            &&& upto >= checked
            &&& upto == checked || (index <= upto <= v.commit_index && holds_from(v.log, index, upto))
            &&& forall|i: u64| #[trigger]
                b.seen.committed.contains_key(i) ==> c.seen.committed.contains_key(i)
                    && c.seen.committed[i] == b.seen.committed[i]
            &&& forall|i: u64| #[trigger]
                c.seen.committed.contains_key(i) && !b.seen.committed.contains_key(i) ==> index <= i
                    <= v.commit_index && v.log.get(i) is Some && c.seen.committed[i] == (RecView {
                    term: v.log.get(i)->Some_0.term,
                    cmd: v.log.get(i)->Some_0.cmd,
                    committed_in_term: v.term,
                }) && c.seen.max_committed >= i
            &&& c.seen.max_committed != b.seen.max_committed ==> c.seen.committed.contains_key(
                c.seen.max_committed,
            )
            &&& forall|i: u64|
                index <= i <= v.commit_index && #[trigger] holds_from(v.log, index, i)
                    ==> c.seen.committed.contains_key(i) && upto >= i
        }),
    decreases v.commit_index + 1 - index,
{
    assert forall|k: u64|
        index <= k <= v.commit_index && #[trigger] holds_from(v.log, index, k) implies v.log.get(
        index as u64,
    ) is Some by {}
    if index <= v.commit_index && v.log.get(index as u64) is Some {
        let i = index as u64;
        let s = commit_step(b, time, v, i);
        assert(caused(a, time, v, b, s)) by {
            if a.seen.committed.contains_key(i) {
                assert(b.seen.committed.contains_key(i));
                assert(b.seen.committed[i] == a.seen.committed[i]);
                assert(v.log.get(i) is Some);
            } else {
                assert(!b.seen.committed.contains_key(i));
            }
        }
        lemma_committed_caused(a, s, time, v, index + 1, i);
        let (c, upto) = check_committed_from(b, time, v, index, checked);
        assert((c, upto) == check_committed_from(s, time, v, index + 1, i));
        lemma_caused(a, time, v, b, s, c);
        assert(holds_from(v.log, index, upto)) by {
            assert forall|j: u64| index <= j <= upto implies (#[trigger] v.log.get(j)) is Some by {
                if j > index {
                    assert(holds_from(v.log, index + 1, upto));
                }
            }
        }
        assert(s.seen.committed.contains_key(i));
        assert forall|k: u64| #[trigger] b.seen.committed.contains_key(k) implies c.seen.committed.contains_key(
            k,
        ) && c.seen.committed[k] == b.seen.committed[k] by {
            assert(s.seen.committed.contains_key(k));
        }
        assert forall|k: u64|
            index <= k <= v.commit_index && #[trigger] holds_from(v.log, index, k) implies
        c.seen.committed.contains_key(k) && upto >= k by {
            if k > index {
                assert(holds_from(v.log, index + 1, k));
            }
        }
        assert forall|k: u64| #[trigger]
            c.seen.committed.contains_key(k) && !b.seen.committed.contains_key(k) implies index <= k
            <= v.commit_index && v.log.get(k) is Some && c.seen.committed[k] == (RecView {
            term: v.log.get(k)->Some_0.term,
            cmd: v.log.get(k)->Some_0.cmd,
            committed_in_term: v.term,
        }) && c.seen.max_committed >= k by {
            if s.seen.committed.contains_key(k) {
                assert(k == i);
            }
        }
    }
}

proof fn lemma_applied_caused(
    a: Audit,
    b: Audit,
    time: Nanos,
    v: NodeFacts,
    index: int,
    checked: u64,
)
    requires
        refreshed(a.seen.track(v.id), v).applied_checked < index,
        checked < index,
        forall|i: u64|
            index <= i ==> (#[trigger] b.seen.applied.contains_key(i)
                == a.seen.applied.contains_key(i)),
        forall|i: u64|
            index <= i && a.seen.applied.contains_key(i) ==> #[trigger] b.seen.applied[i]
                == a.seen.applied[i],
    ensures
        ({
            let (c, upto) = check_applied_from(b, time, v, index, checked);
            &&& caused(a, time, v, b, c)
            &&& c.seen.committed == b.seen.committed
            &&& c.seen.nodes == b.seen.nodes
            &&& c.seen.entries == b.seen.entries
            &&& c.seen.leader_log_len == b.seen.leader_log_len
            &&& c.seen.leader_by_term == b.seen.leader_by_term
            &&& c.seen.max_committed == b.seen.max_committed
            &&& upto >= checked
            &&& upto == checked || (index <= upto <= v.last_applied && holds_from(v.log, index, upto))
            &&& forall|i: u64| #[trigger]
                b.seen.applied.contains_key(i) ==> c.seen.applied.contains_key(i)
                    && c.seen.applied[i] == b.seen.applied[i]
            &&& forall|i: u64| #[trigger]
                c.seen.applied.contains_key(i) && !b.seen.applied.contains_key(i) ==> index <= i
                    <= v.last_applied && v.log.get(i) is Some && c.seen.applied[i] == (AppliedView {
                    term: v.log.get(i)->Some_0.term,
                    cmd: v.log.get(i)->Some_0.cmd,
                })
            &&& forall|i: u64|
                index <= i <= v.last_applied && #[trigger] holds_from(v.log, index, i)
                    ==> c.seen.applied.contains_key(i) && upto >= i
        }),
    decreases v.last_applied + 1 - index,
{
    assert forall|k: u64|
        index <= k <= v.last_applied && #[trigger] holds_from(v.log, index, k) implies v.log.get(
        index as u64,
    ) is Some by {}
    if index <= v.last_applied && v.log.get(index as u64) is Some {
        let i = index as u64;
        let s = apply_step(b, time, v, i);
        assert(caused(a, time, v, b, s)) by {
            if a.seen.applied.contains_key(i) {
                assert(b.seen.applied.contains_key(i));
                assert(b.seen.applied[i] == a.seen.applied[i]);
                assert(v.log.get(i) is Some);
            } else {
                assert(!b.seen.applied.contains_key(i));
            }
        }
        lemma_applied_caused(a, s, time, v, index + 1, i);
        let (c, upto) = check_applied_from(b, time, v, index, checked);
        assert((c, upto) == check_applied_from(s, time, v, index + 1, i));
        lemma_caused(a, time, v, b, s, c);
        assert(holds_from(v.log, index, upto)) by {
            assert forall|j: u64| index <= j <= upto implies (#[trigger] v.log.get(j)) is Some by {
                if j > index {
                    assert(holds_from(v.log, index + 1, upto));
                }
            }
        }
        assert(s.seen.applied.contains_key(i));
        assert forall|k: u64| #[trigger] b.seen.applied.contains_key(k) implies c.seen.applied.contains_key(
            k,
        ) && c.seen.applied[k] == b.seen.applied[k] by {
            assert(s.seen.applied.contains_key(k));
        }
        assert forall|k: u64|
            index <= k <= v.last_applied && #[trigger] holds_from(v.log, index, k) implies
        c.seen.applied.contains_key(k) && upto >= k by {
            if k > index {
                assert(holds_from(v.log, index + 1, k));
            }
        }
        assert forall|k: u64| #[trigger]
            c.seen.applied.contains_key(k) && !b.seen.applied.contains_key(k) implies index <= k
            <= v.last_applied && v.log.get(k) is Some && c.seen.applied[k] == (AppliedView {
            term: v.log.get(k)->Some_0.term,
            cmd: v.log.get(k)->Some_0.cmd,
        })  by {
            if s.seen.applied.contains_key(k) {
                assert(k == i);
            }
        }
    }
}

/// Every finding has its cause: whatever a look at a running node reports, it
/// is about that node, at that time, and what its kind says is so of what the
/// node shows and what was seen before.
pub proof fn law_findings_have_causes(a: Audit, time: Nanos, v: NodeFacts, k: int)
    requires
        v.up,
        v.log.wf(),
        a.out.len() <= k < check_one(a, time, v).out.len(),
    ensures
        explained(a, time, v, check_one(a, time, v).out[k]),
{
    lemma_look(a, time, v);
}

proof fn lemma_look(a: Audit, time: Nanos, v: NodeFacts)
    requires
        v.up,
        v.log.wf(),
    ensures
        caused(a, time, v, a, check_one(a, time, v)),
        remembered(a, v, check_one(a, time, v).seen),
{
    let t = refreshed(a.seen.track(v.id), v);
    let fresh = entries_above(v.log, t.checked_upto);
    lemma_fresh_distinct(v.log, t.checked_upto);
    lemma_alone_caused(a, time, v);
    if v.role == Role::Leader {
        lemma_leader_caused(a, time, v);
    }
    let s = stage_leader(a, time, v);
    lemma_entries_caused(a, s, time, v, fresh.len());
    let a1 = check_entries(s, time, v, fresh, fresh.len());
    lemma_committed_caused(a, a1, time, v, t.committed_checked + 1, t.committed_checked);
    let (a2, committed) = check_committed_from(
        a1,
        time,
        v,
        t.committed_checked + 1,
        t.committed_checked,
    );
    lemma_applied_caused(a, a2, time, v, t.applied_checked + 1, t.applied_checked);
    let (a3, applied) = check_applied_from(a2, time, v, t.applied_checked + 1, t.applied_checked);
    lemma_caused(a, time, v, a, s, a1);
    lemma_caused(a, time, v, a, a1, a2);
    lemma_caused(a, time, v, a, a2, a3);
    assert(check_one(a, time, v) == check_log(s, time, v, t));
    assert(check_one(a, time, v).out == a3.out);
    let end = check_one(a, time, v).seen;
    assert(end.entries == a1.seen.entries);
    assert(end.committed == a2.seen.committed);
    assert(end.applied == a3.seen.applied);
    assert forall|i: int| 0 <= i < fresh.len() implies end.entries.contains_key(
        ((#[trigger] fresh[i]).index, fresh[i].term),
    ) by {
        assert(a1.seen.entries.contains_key((fresh[i].index, fresh[i].term)));
    }
}

/// What a look at a running node leaves behind: each entry not looked at
/// before, each index committed and each applied, under what it was first seen
/// as; the longest log of a leadership; and how far the node has come.
pub open spec fn remembered(a: Audit, v: NodeFacts, end: Seen) -> bool {
    let t = refreshed(a.seen.track(v.id), v);
    let fresh = entries_above(v.log, t.checked_upto);
    let key = (v.id.0, v.term);
    &&& forall|i: int|
        0 <= i < fresh.len() ==> end.entries.contains_key(
            ((#[trigger] fresh[i]).index, fresh[i].term),
        ) && (!a.seen.entries.contains_key((fresh[i].index, fresh[i].term)) ==> end.entries[(
            fresh[i].index,
            fresh[i].term,
        )] == fresh[i].cmd)
    &&& forall|i: u64|
        t.committed_checked < i <= v.commit_index && #[trigger] holds_from(v.log, t.committed_checked + 1, i)
            ==> end.committed.contains_key(i)
    &&& forall|i: u64| #[trigger]
        end.committed.contains_key(i) && !a.seen.committed.contains_key(i) ==> t.committed_checked < i
            <= v.commit_index && v.log.get(i) is Some && end.committed[i].term
            == v.log.get(i)->Some_0.term && end.committed[i].cmd == v.log.get(i)->Some_0.cmd
            && end.committed[i].committed_in_term == v.term && end.max_committed >= i
    &&& forall|i: u64|
        t.applied_checked < i <= v.last_applied && #[trigger] holds_from(v.log, t.applied_checked + 1, i)
            ==> end.applied.contains_key(i)
    &&& forall|i: u64| #[trigger]
        end.applied.contains_key(i) && !a.seen.applied.contains_key(i) ==> t.applied_checked < i
            <= v.last_applied && v.log.get(i) is Some && end.applied[i].term
            == v.log.get(i)->Some_0.term && end.applied[i].cmd == v.log.get(i)->Some_0.cmd
    &&& v.role == Role::Leader ==> end.leader_log_len.contains_key(key) && end.leader_log_len[key]
        >= v.log.last_index() && (a.seen.leader_log_len.contains_key(key)
        ==> end.leader_log_len[key] >= a.seen.leader_log_len[key]) && (end.leader_log_len[key]
        == v.log.last_index() || a.seen.leader_log_len.contains_key(key)
        && a.seen.leader_log_len[key] == end.leader_log_len[key])
    &&& forall|other: (u32, u64)|
        other != key || v.role != Role::Leader ==> (#[trigger] end.leader_log_len.contains_key(other)
            == a.seen.leader_log_len.contains_key(other)) && end.leader_log_len[other]
            == a.seen.leader_log_len[other]
    &&& end.track(v.id).commit_index == v.commit_index
    &&& end.track(v.id).incarnation == v.incarnation
    &&& end.track(v.id).truncations == v.truncations
    &&& end.track(v.id).acted_term == a.seen.track(v.id).acted_term
    &&& end.track(v.id).checked_upto == (if fresh.len() > 0 {
        v.log.last_index()
    } else {
        t.checked_upto
    })
    &&& forall|other: NodeId| other != v.id ==> #[trigger] end.track(other) == a.seen.track(other)
    &&& ({
        let now = end.track(v.id).committed_checked;
        now == t.committed_checked || (t.committed_checked < now <= v.commit_index && holds_from(
            v.log,
            t.committed_checked + 1,
            now,
        ))
    })
    &&& ({
        let now = end.track(v.id).applied_checked;
        now == t.applied_checked || (t.applied_checked < now <= v.last_applied && holds_from(
            v.log,
            t.applied_checked + 1,
            now,
        ))
    })
}

/// What was seen is remembered, so that the next look can be held against it.
pub proof fn law_looks_are_remembered(a: Audit, time: Nanos, v: NodeFacts)
    requires
        v.up,
        v.log.wf(),
    ensures
        remembered(a, v, check_one(a, time, v).seen),
{
    lemma_look(a, time, v);
}

/// Leader append-only: a leader whose log ends before where it was seen to end
/// in the same term is reported, by exactly one finding about it, and one whose
/// log has not shrunk is not.
pub proof fn law_shrinking_leaders_are_reported(a: Audit, time: Nanos, v: NodeFacts)
    requires
        v.up,
        v.role == Role::Leader,
        v.log.wf(),
    ensures
        v.log.last_index() < longest_led(a, v) <==> adds(
            a,
            check_one(a, time, v),
            "leader_append_only"@,
            v.id,
        ),
        longest_led(check_one(a, time, v), v) >= v.log.last_index(),
        longest_led(check_one(a, time, v), v) >= longest_led(a, v),
{
    let b = check_one(a, time, v);
    lemma_look(a, time, v);
    lemma_append_only_kind();
    let s = stage_alone(a, time, v);
    let e = check_election(s, time, v);
    let c = check_append_only(e, time, v);
    lemma_alone_caused(a, time, v);
    lemma_on_from_leader(a, time, v);
    if v.log.last_index() < longest_led(a, v) {
        let k = c.out.len() - 1;
        assert(c.out[k].kind == "leader_append_only"@ && c.out[k].node == Some(v.id));
        assert(b.out[k] == c.out[k]);
        assert(a.out.len() <= k) by {
            assert(s.out.len() >= a.out.len());
        }
    }
    if adds(a, b, "leader_append_only"@, v.id) {
        let k = choose|k: int|
            a.out.len() <= k < b.out.len() && (#[trigger] b.out[k]).kind == "leader_append_only"@
                && b.out[k].node == Some(v.id);
        assert(explained(a, time, v, b.out[k]));
    }
}

proof fn lemma_on_from_leader(a: Audit, time: Nanos, v: NodeFacts)
    requires
        v.up,
        v.role == Role::Leader,
        v.log.wf(),
    ensures
        ({
            let c = check_append_only(
                check_election(stage_alone(a, time, v), time, v),
                time,
                v,
            );
            &&& c.out.len() <= check_one(a, time, v).out.len()
            &&& forall|k: int|
                0 <= k < c.out.len() ==> #[trigger] check_one(a, time, v).out[k] == c.out[k]
        }),
{
    let t = refreshed(a.seen.track(v.id), v);
    let fresh = entries_above(v.log, t.checked_upto);
    lemma_fresh_distinct(v.log, t.checked_upto);
    lemma_leader_caused(a, time, v);
    lemma_alone_caused(a, time, v);
    let c = check_append_only(check_election(stage_alone(a, time, v), time, v), time, v);
    let verified = verified_upto(a, v);
    assert(c.seen.leader_verified == a.seen.leader_verified);
    lemma_complete_caused(a, c, time, v, verified + 1, verified);
    let s = stage_leader(a, time, v);
    assert(s.out == check_complete_from(c, time, v, verified + 1, verified).0.out);
    lemma_entries_caused(a, s, time, v, fresh.len());
    let a1 = check_entries(s, time, v, fresh, fresh.len());
    lemma_committed_caused(a, a1, time, v, t.committed_checked + 1, t.committed_checked);
    let a2 = check_committed_from(a1, time, v, t.committed_checked + 1, t.committed_checked).0;
    lemma_applied_caused(a, a2, time, v, t.applied_checked + 1, t.applied_checked);
    let a3 = check_applied_from(a2, time, v, t.applied_checked + 1, t.applied_checked).0;
    lemma_caused(a, time, v, s, a1, a2);
    lemma_caused(a, time, v, s, a2, a3);
    assert(check_one(a, time, v).out == a3.out);
    assert forall|k: int| 0 <= k < c.out.len() implies #[trigger] a3.out[k] == c.out[k] by {
        assert(s.out[k] == c.out[k]);
        assert(a3.out[k] == s.out[k]);
    }
}

/// The kind of an append-only finding is its own.
proof fn lemma_append_only_kind()
    ensures
        "leader_append_only"@ != "term_regression"@,
        "leader_append_only"@ != "commit_beyond_log"@,
        "leader_append_only"@ != "applied_beyond_commit"@,
        "leader_append_only"@ != "durable_beyond_log"@,
        "leader_append_only"@ != "commit_regression"@,
        "leader_append_only"@ != "commit_of_foreign_term"@,
        "leader_append_only"@ != "election_safety"@,
        "leader_append_only"@ != "leader_completeness"@,
        "leader_append_only"@ != "log_matching"@,
        "leader_append_only"@ != "committed_entry_changed"@,
        "leader_append_only"@ != "state_machine_safety"@,
{
    reveal_strlit("leader_append_only");
    reveal_strlit("term_regression");
    reveal_strlit("commit_beyond_log");
    reveal_strlit("applied_beyond_commit");
    reveal_strlit("durable_beyond_log");
    reveal_strlit("commit_regression");
    reveal_strlit("commit_of_foreign_term");
    reveal_strlit("election_safety");
    reveal_strlit("leader_completeness");
    reveal_strlit("log_matching");
    reveal_strlit("committed_entry_changed");
    reveal_strlit("state_machine_safety");
    assert("leader_append_only"@.len() == 18);
    assert("term_regression"@.len() == 15);
    assert("commit_beyond_log"@.len() == 17);
    assert("applied_beyond_commit"@.len() == 21);
    assert("leader_append_only"@[0] == 'l');
    assert("durable_beyond_log"@[0] == 'd');
    assert("commit_regression"@.len() == 17);
    assert("commit_of_foreign_term"@.len() == 22);
    assert("election_safety"@.len() == 15);
    assert("leader_completeness"@.len() == 19);
    assert("log_matching"@.len() == 12);
    assert("committed_entry_changed"@.len() == 23);
    assert("state_machine_safety"@.len() == 20);
}

/// A leader is held to the longest log it was ever seen with in its term,
/// whatever was looked at in between: where it was seen leading with a longer
/// log in one look, the look that finds it shorter reports it.
pub proof fn law_a_lost_tail_is_noticed(
    a: Audit,
    time: Nanos,
    earlier: NodeFacts,
    between: Seq<NodeFacts>,
    later: NodeFacts,
    then: Nanos,
)
    requires
        earlier.up && later.up,
        earlier.role == Role::Leader && later.role == Role::Leader,
        earlier.id == later.id && earlier.term == later.term,
        earlier.log.wf() && later.log.wf(),
        forall|i: int| 0 <= i < between.len() ==> (#[trigger] between[i]).log.wf(),
        later.log.last_index() < earlier.log.last_index(),
    ensures
        ({
            let b = check_all(check_one(a, time, earlier), time, between, between.len());
            adds(b, check_one(b, then, later), "leader_append_only"@, later.id)
        }),
{
    let first = check_one(a, time, earlier);
    law_shrinking_leaders_are_reported(a, time, earlier);
    lemma_longest_kept(first, time, between, between.len(), later);
    let b = check_all(first, time, between, between.len());
    law_shrinking_leaders_are_reported(b, then, later);
}

proof fn lemma_longest_kept(a: Audit, time: Nanos, vs: Seq<NodeFacts>, n: nat, v: NodeFacts)
    requires
        n <= vs.len(),
        forall|i: int| 0 <= i < vs.len() ==> (#[trigger] vs[i]).log.wf(),
    ensures
        longest_led(check_all(a, time, vs, n), v) >= longest_led(a, v),
    decreases n,
{
    if n > 0 {
        lemma_longest_kept(a, time, vs, (n - 1) as nat, v);
        let b = check_all(a, time, vs, (n - 1) as nat);
        let u = vs[n - 1];
        if u.up {
            lemma_look(b, time, u);
            let key = (v.id.0, v.term);
            if key != (u.id.0, u.term) || u.role != Role::Leader {
                assert(check_one(b, time, u).seen.leader_log_len.contains_key(key)
                    == b.seen.leader_log_len.contains_key(key));
            }
        }
    }
}

/// A leader that moves its commit index onto an entry of another term is
/// reported.
pub proof fn law_foreign_commits_are_reported(a: Audit, time: Nanos, v: NodeFacts)
    requires
        v.up,
        v.role == Role::Leader,
        v.log.wf(),
        v.incarnation == a.seen.track(v.id).incarnation,
        v.commit_index > a.seen.track(v.id).commit_index,
        v.log.term_at(v.commit_index) is Some,
        v.log.term_at(v.commit_index)->Some_0 != v.term,
    ensures
        adds(a, check_one(a, time, v), "commit_of_foreign_term"@, v.id),
{
    let s = stage_alone(a, time, v);
    let b = check_one(a, time, v);
    lemma_on_from_leader(a, time, v);
    let e = check_election(s, time, v);
    let c = check_append_only(e, time, v);
    let k = s.out.len() - 1;
    assert(s.out[k].kind == "commit_of_foreign_term"@ && s.out[k].node == Some(v.id));
    assert(e.out[k] == s.out[k]);
    assert(c.out[k] == s.out[k]);
    assert(b.out[k] == c.out[k]);
    assert(k >= a.out.len());
}

/// The term a node was heard to speak in only goes up, and is the highest it
/// was heard in; of no other node anything is noted.
pub proof fn law_spoken_terms_are_noted(s: Seen, from: NodeId, term: u64, other: NodeId)
    ensures
        ({
            let t = s.note_sent(from, term);
            &&& t.track(from).acted_term >= term
            &&& t.track(from).acted_term >= s.track(from).acted_term
            &&& t.track(from).acted_term == term || t.track(from).acted_term == s.track(from).acted_term
            &&& t.track(from).commit_index == s.track(from).commit_index
            &&& other != from ==> t.track(other) == s.track(other)
            &&& t.committed == s.committed && t.applied == s.applied && t.entries == s.entries
        }),
{
}

proof fn lemma_untracked(a: Audit, time: Nanos, vs: Seq<NodeFacts>, n: nat, id: NodeId)
    requires
        n <= vs.len(),
        forall|k: int| 0 <= k < vs.len() ==> (#[trigger] vs[k]).log.wf(),
        forall|k: int| 0 <= k < n ==> (#[trigger] vs[k]).id != id,
    ensures
        check_all(a, time, vs, n).seen.track(id) == a.seen.track(id),
    decreases n,
{
    if n > 0 {
        lemma_untracked(a, time, vs, (n - 1) as nat, id);
        let b = check_all(a, time, vs, (n - 1) as nat);
        let u = vs[n - 1];
        if u.up {
            lemma_look(b, time, u);
        }
    }
}

/// Whether the nodes of a look are different ones, none of them known yet.
pub open spec fn first_look(a: Audit, vs: Seq<NodeFacts>) -> bool {
    &&& forall|k: int| 0 <= k < vs.len() ==> (#[trigger] vs[k]).log.wf()
    &&& forall|j: int, k: int|
        0 <= j < k < vs.len() ==> (#[trigger] vs[j]).id != (#[trigger] vs[k]).id
    &&& forall|k: int|
        0 <= k < vs.len() ==> #[trigger] a.seen.track(vs[k].id) == NodeTrack::unseen()
}

/// Log matching, of any two nodes looked at together: where their logs name two
/// commands at one index in one term, it is reported.
pub proof fn law_two_commands_in_one_place_are_noticed(
    a: Audit,
    time: Nanos,
    vs: Seq<NodeFacts>,
    i: int,
    j: int,
    x: int,
    y: int,
)
    requires
        first_look(a, vs),
        0 <= i < j < vs.len(),
        vs[i].up && vs[j].up,
        0 <= x < vs[i].log.entries.len(),
        0 <= y < vs[j].log.entries.len(),
        vs[i].log.entries[x].index == vs[j].log.entries[y].index,
        vs[i].log.entries[x].term == vs[j].log.entries[y].term,
        vs[i].log.entries[x].cmd != vs[j].log.entries[y].cmd,
    ensures
        found(check_all(a, time, vs, vs.len()).out, "log_matching"@),
{
    let end = check_all(a, time, vs, vs.len());
    let (u, v) = (vs[i], vs[j]);
    let (e, f) = (u.log.entries[x], v.log.entries[y]);
    let key = (e.index, e.term);
    let b = check_all(a, time, vs, i as nat);
    let c = check_all(a, time, vs, (i + 1) as nat);
    let d = check_all(a, time, vs, j as nat);
    lemma_untracked(a, time, vs, i as nat, u.id);
    lemma_untracked(a, time, vs, j as nat, v.id);
    assert(a.seen.track(vs[i].id) == NodeTrack::unseen());
    assert(a.seen.track(vs[j].id) == NodeTrack::unseen());
    assert(entries_above(u.log, refreshed(b.seen.track(u.id), u).checked_upto) == u.log.entries);
    assert(entries_above(v.log, refreshed(d.seen.track(v.id), v).checked_upto) == v.log.entries);
    lemma_look(b, time, u);
    lemma_check_all_on(a, time, vs, (i + 1) as nat, j as nat);
    lemma_check_all_on(a, time, vs, (i + 1) as nat, vs.len());
    lemma_check_all_on(a, time, vs, (j + 1) as nat, vs.len());
    assert(u.log.entries[x] == e);
    assert(c.seen.entries.contains_key(key));
    lemma_one(b, time, u);
    if b.seen.entries.contains_key(key) && b.seen.entries[key] != e.cmd {
        law_conflicting_entries_are_reported(b, time, u, x);
        lemma_found_stays(c, end, "log_matching"@);
    } else {
        assert(c.seen.entries[key] == e.cmd);
        assert(d.seen.entries.contains_key(key));
        law_conflicting_entries_are_reported(d, time, v, y);
        lemma_found_stays(check_all(a, time, vs, (j + 1) as nat), end, "log_matching"@);
    }
}

/// Whether a log holds an entry at every index up to one.
pub open spec fn holds_upto(log: LogView, i: u64) -> bool {
    holds_from(log, 1, i)
}

/// Committed entries are one history: where two nodes looked at together report
/// an index committed with different entries, it is reported.
pub proof fn law_two_commits_of_one_index_are_noticed(
    a: Audit,
    time: Nanos,
    vs: Seq<NodeFacts>,
    i: int,
    j: int,
    at: u64,
)
    requires
        first_look(a, vs),
        0 <= i < j < vs.len(),
        vs[i].up && vs[j].up,
        0 < at <= vs[i].commit_index,
        at <= vs[j].commit_index,
        holds_upto(vs[i].log, at) && holds_upto(vs[j].log, at),
        ({
            let (e, f) = (vs[i].log.get(at)->Some_0, vs[j].log.get(at)->Some_0);
            e.term != f.term || e.cmd != f.cmd
        }),
    ensures
        found(check_all(a, time, vs, vs.len()).out, "committed_entry_changed"@),
{
    let end = check_all(a, time, vs, vs.len());
    let (u, v) = (vs[i], vs[j]);
    let b = check_all(a, time, vs, i as nat);
    let c = check_all(a, time, vs, (i + 1) as nat);
    let d = check_all(a, time, vs, j as nat);
    let e = u.log.get(at)->Some_0;
    lemma_untracked(a, time, vs, i as nat, u.id);
    lemma_untracked(a, time, vs, j as nat, v.id);
    assert(a.seen.track(vs[i].id) == NodeTrack::unseen());
    assert(a.seen.track(vs[j].id) == NodeTrack::unseen());
    lemma_look(b, time, u);
    lemma_one(b, time, u);
    lemma_check_all_on(a, time, vs, (i + 1) as nat, j as nat);
    lemma_check_all_on(a, time, vs, (i + 1) as nat, vs.len());
    lemma_check_all_on(a, time, vs, (j + 1) as nat, vs.len());
    assert(holds_from(u.log, refreshed(b.seen.track(u.id), u).committed_checked + 1, at));
    assert(c.seen.committed.contains_key(at));
    if b.seen.committed.contains_key(at) && (b.seen.committed[at].term != e.term
        || b.seen.committed[at].cmd != e.cmd) {
        law_changed_commits_are_reported(b, time, u, at);
        lemma_found_stays(c, end, "committed_entry_changed"@);
    } else {
        assert(c.seen.committed[at].term == e.term && c.seen.committed[at].cmd == e.cmd);
        assert(d.seen.committed.contains_key(at));
        law_changed_commits_are_reported(d, time, v, at);
        lemma_found_stays(check_all(a, time, vs, (j + 1) as nat), end, "committed_entry_changed"@);
    }
}

/// Machines apply one history: where two nodes looked at together have applied
/// different entries at one index, it is reported.
pub proof fn law_two_applies_of_one_index_are_noticed(
    a: Audit,
    time: Nanos,
    vs: Seq<NodeFacts>,
    i: int,
    j: int,
    at: u64,
)
    requires
        first_look(a, vs),
        0 <= i < j < vs.len(),
        vs[i].up && vs[j].up,
        0 < at <= vs[i].last_applied,
        at <= vs[j].last_applied,
        holds_upto(vs[i].log, at) && holds_upto(vs[j].log, at),
        ({
            let (e, f) = (vs[i].log.get(at)->Some_0, vs[j].log.get(at)->Some_0);
            e.term != f.term || e.cmd != f.cmd
        }),
    ensures
        found(check_all(a, time, vs, vs.len()).out, "state_machine_safety"@),
{
    let end = check_all(a, time, vs, vs.len());
    let (u, v) = (vs[i], vs[j]);
    let b = check_all(a, time, vs, i as nat);
    let c = check_all(a, time, vs, (i + 1) as nat);
    let d = check_all(a, time, vs, j as nat);
    let e = u.log.get(at)->Some_0;
    lemma_untracked(a, time, vs, i as nat, u.id);
    lemma_untracked(a, time, vs, j as nat, v.id);
    assert(a.seen.track(vs[i].id) == NodeTrack::unseen());
    assert(a.seen.track(vs[j].id) == NodeTrack::unseen());
    lemma_look(b, time, u);
    lemma_one(b, time, u);
    lemma_check_all_on(a, time, vs, (i + 1) as nat, j as nat);
    lemma_check_all_on(a, time, vs, (i + 1) as nat, vs.len());
    lemma_check_all_on(a, time, vs, (j + 1) as nat, vs.len());
    assert(holds_from(u.log, refreshed(b.seen.track(u.id), u).applied_checked + 1, at));
    assert(c.seen.applied.contains_key(at));
    if b.seen.applied.contains_key(at) && (b.seen.applied[at].term != e.term
        || b.seen.applied[at].cmd != e.cmd) {
        law_divergent_applies_are_reported(b, time, u, at);
        lemma_found_stays(c, end, "state_machine_safety"@);
    } else {
        assert(c.seen.applied[at].term == e.term && c.seen.applied[at].cmd == e.cmd);
        assert(d.seen.applied.contains_key(at));
        law_divergent_applies_are_reported(d, time, v, at);
        lemma_found_stays(check_all(a, time, vs, (j + 1) as nat), end, "state_machine_safety"@);
    }
}

/// How far a node has been looked at holds only as long as it stays what it was:
/// after a restart or a cut of its log everything is looked at again. What it
/// was heard to say, and what it had committed, is remembered all the same.
pub proof fn law_changed_nodes_are_looked_at_again(t: NodeTrack, v: NodeFacts)
    ensures
        ({
            let r = refreshed(t, v);
            let changed = t.incarnation != v.incarnation || t.truncations != v.truncations;
            &&& changed ==> r.checked_upto == 0 && r.committed_checked == 0 && r.applied_checked == 0
            &&& !changed ==> r == t
            &&& r.incarnation == v.incarnation && r.truncations == v.truncations
            &&& r.acted_term == t.acted_term && r.commit_index == t.commit_index
        }),
{
}

/// The entries above an index are all those whose own index is higher.
pub proof fn law_entries_above_an_index(log: LogView, index: u64, i: int)
    requires
        log.wf(),
        0 <= i < log.entries.len(),
    ensures
        log.entries[i].index > index <==> entries_above(log, index).contains(log.entries[i]),
        entries_above(log, index).len() <= log.entries.len(),
{
    let es = entries_above(log, index);
    let shift = if index <= log.snapshot_index {
        0
    } else {
        index - log.snapshot_index
    };
    assert(log.entries[i].index == log.snapshot_index + 1 + i);
    if log.entries[i].index > index {
        assert(es[i - shift] == log.entries[i]);
    }
    if es.contains(log.entries[i]) {
        let k = choose|k: int| 0 <= k < es.len() && es[k] == log.entries[i];
        assert(es[k] == log.entries[k + shift]);
        assert(log.entries[k + shift].index == log.snapshot_index + 1 + k + shift);
    }
}

proof fn lemma_verified(a: Audit, b: Audit, time: Nanos, v: NodeFacts, index: int, verified: u64, i: u64)
    requires
        b.seen.committed == a.seen.committed,
        b.seen.max_committed == a.seen.max_committed,
        verified < index <= i,
        i <= check_complete_from(b, time, v, index, verified).1,
    ensures
        !misses(a, v, i),
    decreases b.seen.max_committed + 1 - index,
{
    if index <= b.seen.max_committed {
        let k = index as u64;
        if !b.seen.committed.contains_key(k) {
            if index < i {
                lemma_verified(a, b, time, v, index + 1, verified, i);
            }
        } else if index < i {
            lemma_verified(a, b, time, v, index + 1, k, i);
        }
    }
}

/// What is noted as verified of a leadership was verified: none of it is missing.
pub proof fn law_verified_entries_are_held(a: Audit, time: Nanos, v: NodeFacts, i: u64)
    requires
        v.up,
        v.role == Role::Leader,
        v.log.wf(),
        verified_upto(a, v) < i <= verified_upto(check_one(a, time, v), v),
    ensures
        !misses(a, v, i),
{
    let s = stage_alone(a, time, v);
    lemma_alone_caused(a, time, v);
    let c = check_append_only(check_election(s, time, v), time, v);
    let verified = verified_upto(a, v);
    assert(c.seen.leader_verified == a.seen.leader_verified);
    lemma_complete_caused(a, c, time, v, verified + 1, verified);
    let (d, upto) = check_complete_from(c, time, v, verified + 1, verified);
    let l = stage_leader(a, time, v);
    assert(l.seen.leader_verified[(v.id.0, v.term)] == upto);
    lemma_verified_kept(l, time, v, refreshed(a.seen.track(v.id), v));
    lemma_verified(a, c, time, v, verified + 1, verified, i);
}

proof fn lemma_verified_kept(a: Audit, time: Nanos, v: NodeFacts, t: NodeTrack)
    ensures
        check_log(a, time, v, t).seen.leader_verified == a.seen.leader_verified,
{
    let fresh = entries_above(v.log, t.checked_upto);
    lemma_entries_verified(a, time, v, fresh, fresh.len());
    let a1 = check_entries(a, time, v, fresh, fresh.len());
    lemma_committed_verified(a1, time, v, t.committed_checked + 1, t.committed_checked);
    let a2 = check_committed_from(a1, time, v, t.committed_checked + 1, t.committed_checked).0;
    lemma_applied_verified(a2, time, v, t.applied_checked + 1, t.applied_checked);
}

proof fn lemma_entries_verified(a: Audit, time: Nanos, v: NodeFacts, es: Seq<EntryView>, n: nat)
    ensures
        check_entries(a, time, v, es, n).seen.leader_verified == a.seen.leader_verified,
    decreases n,
{
    if n > 0 {
        lemma_entries_verified(a, time, v, es, (n - 1) as nat);
    }
}

proof fn lemma_committed_verified(a: Audit, time: Nanos, v: NodeFacts, index: int, checked: u64)
    ensures
        check_committed_from(a, time, v, index, checked).0.seen.leader_verified
            == a.seen.leader_verified,
    decreases v.commit_index + 1 - index,
{
    if index <= v.commit_index && v.log.get(index as u64) is Some {
        let b = commit_step(a, time, v, index as u64);
        lemma_committed_verified(b, time, v, index + 1, index as u64);
    }
}

proof fn lemma_applied_verified(a: Audit, time: Nanos, v: NodeFacts, index: int, checked: u64)
    ensures
        check_applied_from(a, time, v, index, checked).0.seen.leader_verified
            == a.seen.leader_verified,
    decreases v.last_applied + 1 - index,
{
    if index <= v.last_applied && v.log.get(index as u64) is Some {
        let b = apply_step(a, time, v, index as u64);
        lemma_applied_verified(b, time, v, index + 1, index as u64);
    }
}

} // verus!
