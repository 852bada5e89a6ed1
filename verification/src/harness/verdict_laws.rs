//! What ends up in the report of a run, and when it is looked for.

use crate::checker::durability::{diverged, not_durable};
use crate::checker::invariant_laws::{apply_step, commit_step, found};
use crate::checker::invariants::{
    check_all, check_applied_from, check_committed_from, check_complete_from, check_entries, check_one, Audit,
    NodeFacts, Seen,
};
use crate::checker::linearizability::{first_fault, VerdictView};
use crate::checker::report::{reported, reported_all, ViolationView};
use crate::count::bump;
use crate::harness::cluster_model::{due, seconds_text, ClusterView};
use crate::harness::liveness_laws::law_reports_show_what_was_reported;
use crate::kvstore::log::EntryView;
use crate::simcore::faults::FaultView;
use crate::simcore::scheduler::FiredView;
use crate::simcore::{Nanos, NodeId};
use crate::text::decimal;
use vstd::prelude::*;

verus! {

/// Whether every kind in one report is in another.
pub open spec fn shows(a: Seq<ViolationView>, b: Seq<ViolationView>) -> bool {
    forall|k: Seq<char>| found(a, k) ==> #[trigger] found(b, k)
}

proof fn lemma_shows(a: Seq<ViolationView>, b: Seq<ViolationView>, c: Seq<ViolationView>)
    requires
        shows(a, b),
        shows(b, c),
    ensures
        shows(a, c),
{
    assert forall|k: Seq<char>| found(a, k) implies #[trigger] found(c, k) by {
        assert(found(b, k));
    }
}

proof fn lemma_one_shows(vs: Seq<ViolationView>, v: ViolationView)
    ensures
        shows(vs, reported(vs, v)),
        found(reported(vs, v), v.kind),
{
    law_reports_show_what_was_reported(vs, v);
    assert forall|k: Seq<char>| found(vs, k) implies #[trigger] found(reported(vs, v), k) by {}
}

/// Everything that is added to a report shows in it, and nothing that was there
/// before goes missing.
pub proof fn law_reports_gather(vs: Seq<ViolationView>, more: Seq<ViolationView>)
    ensures
        shows(vs, reported_all(vs, more)),
        shows(more, reported_all(vs, more)),
    decreases more.len(),
{
    let end = reported_all(vs, more);
    if more.len() > 0 {
        let d = more.drop_last();
        law_reports_gather(vs, d);
        let mid = reported_all(vs, d);
        lemma_one_shows(mid, more.last());
        lemma_shows(vs, mid, end);
        assert forall|k: Seq<char>| found(more, k) implies #[trigger] found(end, k) by {
            let i = choose|i: int| 0 <= i < more.len() && (#[trigger] more[i]).kind == k;
            if i < d.len() {
                assert(d[i].kind == k);
                assert(found(d, k));
                assert(found(mid, k));
            }
        }
    }
}

/// The last checks of a run all count: a recording that makes no sense, replicas
/// that differ, committed entries that the disks do not hold, a history that no
/// order explains; and whatever was reported before.
pub proof fn law_the_last_checks_count(c: ClusterView)
    ensures
        ({
            let now = c.world.sched.now;
            let rs = c.replicas(c.cfg.servers as nat);
            let end = c.finalized();
            &&& shows(c.report, end.report)
            &&& first_fault(c.history, 0) is Some ==> found(end.report, "history_malformed"@)
            &&& shows(diverged(now, rs, rs.len()), end.report)
            &&& shows(
                not_durable(
                    now,
                    c.committed(c.seen.max_committed as nat),
                    c.durable_disks(),
                    c.cfg.servers as nat,
                ),
                end.report,
            )
            &&& c.verdict().0 is Violation ==> found(end.report, "linearizability"@)
            &&& end.verdict == c.verdict().0
            &&& end.history == c.history
            &&& end.incomplete == c.incomplete
        }),
{
    reveal(ClusterView::final_report);
    reveal(ClusterView::settled);
    let now = c.world.sched.now;
    let rs = c.replicas(c.cfg.servers as nat);
    let recorded = match first_fault(c.history, 0) {
        Some(e) => {
            let v = ViolationView {
                kind: "history_malformed"@,
                time: now,
                node: None,
                detail: "the harness recorded an impossible history: "@ + e,
            };
            lemma_one_shows(c.report, v);
            reported(c.report, v)
        },
        None => c.report,
    };
    let parted = diverged(now, rs, rs.len());
    let lost = not_durable(
        now,
        c.committed(c.seen.max_committed as nat),
        c.durable_disks(),
        c.cfg.servers as nat,
    );
    let converged = reported_all(recorded, parted);
    law_reports_gather(recorded, parted);
    law_reports_gather(converged, lost);
    let settled = c.settled();
    assert(settled == reported_all(converged, lost));
    let live = if c.wedged() {
        let at = c.recovered_at->Some_0;
        let since = if now > at {
            (now - at) as u64
        } else {
            0
        };
        let v = ViolationView {
            kind: "no_progress_after_recovery"@,
            time: now,
            node: None,
            detail: "no operation completed in the "@ + seconds_text(since)
                + " after the cluster healed at "@ + seconds_text(at),
        };
        lemma_one_shows(settled, v);
        reported(settled, v)
    } else {
        settled
    };
    let end = c.final_report();
    if let VerdictView::Violation { key, detail } = c.verdict().0 {
        let v = ViolationView {
            kind: "linearizability"@,
            time: now,
            node: None,
            detail: "key "@ + key + ": "@ + detail,
        };
        lemma_one_shows(live, v);
    }
    assert(shows(live, end));
    lemma_shows(settled, live, end);
    lemma_shows(lost, settled, end);
    lemma_shows(converged, settled, end);
    lemma_shows(parted, converged, end);
    lemma_shows(recorded, converged, end);
    assert(shows(c.report, recorded));
    lemma_shows(c.report, recorded, end);
    if first_fault(c.history, 0) is Some {
        assert(found(recorded, "history_malformed"@));
    }
}

/// Whatever a look at the servers finds is reported, and nothing that was
/// reported before is lost; the look is remembered for the next one.
pub proof fn law_looks_are_reported(c: ClusterView)
    ensures
        ({
            let n = c.cfg.servers as nat;
            let d = c.all_truncations_checked(n);
            let a = check_all(
                Audit { seen: Seen { checks: bump(d.seen.checks), ..d.seen }, out: Seq::empty() },
                d.world.sched.now,
                Seq::new(n, |i: int| d.facts_of(i)),
                n,
            );
            let e = c.check_invariants();
            &&& shows(a.out, e.report)
            &&& shows(c.report, e.report)
            &&& e.seen == a.seen
            &&& e.servers == c.servers && e.world == c.world && e.history == c.history
        }),
{
    reveal(ClusterView::check_invariants);
    let n = c.cfg.servers as nat;
    let d = c.all_truncations_checked(n);
    lemma_truncations(c, n);
    let a = check_all(
        Audit { seen: Seen { checks: bump(d.seen.checks), ..d.seen }, out: Seq::empty() },
        d.world.sched.now,
        Seq::new(n, |i: int| d.facts_of(i)),
        n,
    );
    law_reports_gather(d.report, a.out);
    lemma_shows(c.report, d.report, c.check_invariants().report);
}

proof fn lemma_truncations(c: ClusterView, n: nat)
    ensures
        ({
            let d = c.all_truncations_checked(n);
            &&& shows(c.report, d.report)
            &&& d.servers == c.servers && d.world == c.world && d.history == c.history && d.seen
                == c.seen && d.cfg == c.cfg && d.events == c.events
        }),
    decreases n,
{
    if n > 0 {
        lemma_truncations(c, (n - 1) as nat);
        let d = c.all_truncations_checked((n - 1) as nat);
        let e = d.truncations_checked(n - 1);
        if let Some(s) = d.servers[n - 1] {
            let v = ViolationView {
                kind: "truncated_committed"@,
                time: d.world.sched.now,
                node: Some(NodeId((n - 1) as u32)),
                detail:
                    "node truncated its log at or below its own commit index                          (commit "@
                    + decimal(s.raft.commit_index as nat) + ")"@,
            };
            lemma_one_shows(d.report, v);
        }
        lemma_shows(c.report, d.report, e.report);
    }
}

proof fn lemma_entries_checks(a: Audit, time: Nanos, v: NodeFacts, es: Seq<EntryView>, n: nat)
    ensures
        check_entries(a, time, v, es, n).seen.checks == a.seen.checks,
    decreases n,
{
    if n > 0 {
        lemma_entries_checks(a, time, v, es, (n - 1) as nat);
    }
}

proof fn lemma_committed_checks(a: Audit, time: Nanos, v: NodeFacts, index: int, checked: u64)
    ensures
        check_committed_from(a, time, v, index, checked).0.seen.checks == a.seen.checks,
    decreases v.commit_index + 1 - index,
{
    if index <= v.commit_index && v.log.get(index as u64) is Some {
        let b = commit_step(a, time, v, index as u64);
        lemma_committed_checks(b, time, v, index + 1, index as u64);
    }
}

proof fn lemma_applied_checks(a: Audit, time: Nanos, v: NodeFacts, index: int, checked: u64)
    ensures
        check_applied_from(a, time, v, index, checked).0.seen.checks == a.seen.checks,
    decreases v.last_applied + 1 - index,
{
    if index <= v.last_applied && v.log.get(index as u64) is Some {
        let b = apply_step(a, time, v, index as u64);
        lemma_applied_checks(b, time, v, index + 1, index as u64);
    }
}

proof fn lemma_complete_checks(a: Audit, time: Nanos, v: NodeFacts, index: int, verified: u64)
    ensures
        check_complete_from(a, time, v, index, verified).0.seen == a.seen,
    decreases a.seen.max_committed + 1 - index,
{
    if index <= a.seen.max_committed {
        lemma_complete_checks(a, time, v, index + 1, verified);
        lemma_complete_checks(a, time, v, index + 1, index as u64);
    }
}

proof fn lemma_one_checks(a: Audit, time: Nanos, v: NodeFacts)
    ensures
        check_one(a, time, v).seen.checks == a.seen.checks,
{
    assert forall|b: Audit, es: Seq<EntryView>, n: nat| (#[trigger] check_entries(
        b,
        time,
        v,
        es,
        n,
    )).seen.checks == b.seen.checks by {
        lemma_entries_checks(b, time, v, es, n);
    }
    assert forall|b: Audit, i: int, k: u64| (#[trigger] check_committed_from(
        b,
        time,
        v,
        i,
        k,
    )).0.seen.checks == b.seen.checks by {
        lemma_committed_checks(b, time, v, i, k);
    }
    assert forall|b: Audit, i: int, k: u64| (#[trigger] check_applied_from(
        b,
        time,
        v,
        i,
        k,
    )).0.seen.checks == b.seen.checks by {
        lemma_applied_checks(b, time, v, i, k);
    }
    assert forall|b: Audit, i: int, k: u64| (#[trigger] check_complete_from(
        b,
        time,
        v,
        i,
        k,
    )).0.seen == b.seen by {
        lemma_complete_checks(b, time, v, i, k);
    }
}

proof fn lemma_all_checks(a: Audit, time: Nanos, vs: Seq<NodeFacts>, n: nat)
    ensures
        check_all(a, time, vs, n).seen.checks == a.seen.checks,
    decreases n,
{
    if n > 0 {
        lemma_all_checks(a, time, vs, (n - 1) as nat);
        lemma_one_checks(check_all(a, time, vs, (n - 1) as nat), time, vs[n - 1]);
    }
}

proof fn lemma_look_counts(c: ClusterView)
    ensures
        c.check_invariants().seen.checks == bump(c.seen.checks),
        c.check_invariants().cfg == c.cfg,
        c.check_invariants().events == c.events,
{
    reveal(ClusterView::check_invariants);
    let n = c.cfg.servers as nat;
    lemma_truncations(c, n);
    let d = c.all_truncations_checked(n);
    lemma_all_checks(
        Audit { seen: Seen { checks: bump(d.seen.checks), ..d.seen }, out: Seq::empty() },
        d.world.sched.now,
        Seq::new(n, |i: int| d.facts_of(i)),
        n,
    );
}

proof fn lemma_restart_down(c: ClusterView, now: Nanos, n: nat)
    ensures
        c.restart_down(now, n).seen == c.seen,
        c.restart_down(now, n).cfg == c.cfg,
        c.restart_down(now, n).events == c.events,
    decreases n,
{
    reveal(ClusterView::restart);
    if n > 0 {
        lemma_restart_down(c, now, (n - 1) as nat);
    }
}

proof fn lemma_struck(c: ClusterView, action: FaultView, now: Nanos)
    ensures
        c.struck(action, now).seen == c.seen,
        c.struck(action, now).cfg == c.cfg,
        c.struck(action, now).events == c.events,
{
    reveal(ClusterView::struck);
    reveal(ClusterView::crash);
    reveal(ClusterView::restart);
    reveal(ClusterView::cut);
    reveal(ClusterView::isolate);
    reveal(ClusterView::heal_later);
    reveal(ClusterView::recover);
    lemma_restart_down(c.healed(), now, c.cfg.servers as nat);
}

proof fn lemma_dispatch(c: ClusterView, f: FiredView)
    ensures
        c.dispatch(f).seen.checks == c.seen.checks,
        c.dispatch(f).cfg == c.cfg,
        c.dispatch(f).events == c.events,
{
    reveal(ClusterView::dispatch);
    reveal(ClusterView::on_timer);
    reveal(ClusterView::on_storage);
    reveal(ClusterView::on_deliver);
    reveal(ClusterView::noted);
    reveal(ClusterView::delivered);
    reveal(ClusterView::on_app);
    reveal(ClusterView::fault_tick);
    reveal(ClusterView::restart);
    assert forall|x: ClusterView, act: FaultView, now: Nanos| (#[trigger] x.struck(act, now)).seen
        == x.seen && x.struck(act, now).cfg == x.cfg && x.struck(act, now).events == x.events by {
        lemma_struck(x, act, now);
    }
}

proof fn lemma_reaped(c: ClusterView, n: nat)
    ensures
        c.reaped(n).seen == c.seen,
        c.reaped(n).cfg == c.cfg,
        c.reaped(n).events == c.events,
    decreases n,
{
    reveal(ClusterView::reap);
    reveal(ClusterView::crash);
    if n > 0 {
        lemma_reaped(c, (n - 1) as nat);
    }
}

/// Every event is counted, and the servers are looked at after it exactly where
/// that is due: once after every so many events.
pub proof fn law_looks_are_taken_when_due(c: ClusterView, f: FiredView)
    requires
        c.events < u64::MAX,
        c.seen.checks < u64::MAX,
    ensures
        c.step(f).events == c.events + 1,
        c.step(f).seen.checks - c.seen.checks == if due((c.events + 1) as u64, c.cfg.check_every) {
            1int
        } else {
            0
        },
{
    reveal(ClusterView::step);
    reveal(ClusterView::check_claims);
    let a = ClusterView { events: bump(c.events), ..c };
    lemma_dispatch(a, f);
    let b = a.dispatch(f);
    lemma_reaped(b, b.cfg.servers as nat);
    lemma_look_counts(b.reaped(b.cfg.servers as nat));
}

/// The disks are swept after an event exactly where that is due, behind the look
/// at the servers.
pub proof fn law_disks_are_swept_when_due(c: ClusterView, f: FiredView)
    requires
        c.events < u64::MAX,
        due((c.events + 1) as u64, c.cfg.check_durability_every),
    ensures
        exists|x: ClusterView| #[trigger] x.check_claims() == c.step(f) && x.servers == c.step(f).servers
            && x.world == c.step(f).world,
{
    reveal(ClusterView::step);
    reveal(ClusterView::check_claims);
    let a = ClusterView { events: bump(c.events), ..c };
    lemma_dispatch(a, f);
    let b = a.dispatch(f);
    lemma_reaped(b, b.cfg.servers as nat);
    let d = b.reaped(b.cfg.servers as nat);
    lemma_look_counts(d);
    let x = if due(d.events, d.cfg.check_every) {
        d.check_invariants()
    } else {
        d
    };
    assert(x.check_claims() == c.step(f));
}

} // verus!
