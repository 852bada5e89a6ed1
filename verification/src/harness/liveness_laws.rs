//! What a run says about progress: a cluster that answers nobody after it healed
//! has failed, and one that answers somebody has not failed for that.

use crate::checker::invariant_laws::found;
use crate::checker::linearizability::{
    completed_at, last_with_id, lemma_last_with_id, pending_count, VerdictView,
};
use crate::checker::operation::OperationView;
use crate::checker::report::{count_kind, reported, ViolationView};
use crate::count::bump;
use crate::harness::cluster_model::{
    completed_count, run_of, seconds_text, APP_FAULT_TICK, ClusterView,
};
use crate::harness::config::SimConfig;
use crate::harness::run_laws::{
    law_every_event_keeps_order, law_runs_stay_sound, lemma_driven_cfg, lemma_struck as lemma_struck_sound, sound,
};
use crate::harness::workload::{recorded_id, ClientView};
use crate::kvstore::machine::OutcomeView;
use crate::sim_io::effect::IoState;
use crate::sim_io::sim_state;
use crate::simcore::faults::FaultView;
use crate::simcore::scheduler::{EventView, FiredView};
use crate::simcore::world::WorldView;
use crate::simcore::{Nanos, NodeId};
use vstd::prelude::*;

verus! {

/// How many operations of a history were answered.
pub open spec fn answered(history: Seq<OperationView>) -> nat {
    history.filter(|o: OperationView| o.outcome is Some).len()
}

/// The count that is taken counts the answered operations.
pub proof fn law_completed_operations_are_counted(history: Seq<OperationView>)
    ensures
        completed_count(history) == answered(history),
        pending_count(history) + answered(history) == history.len(),
    decreases history.len(),
{
    reveal(Seq::filter);
    if history.len() > 0 {
        law_completed_operations_are_counted(history.drop_last());
    }
}

proof fn lemma_open(history: Seq<OperationView>, o: OperationView)
    requires
        o.outcome is None,
    ensures
        completed_count(history.push(o)) == completed_count(history),
{
    assert(history.push(o).drop_last() =~= history);
}

proof fn lemma_closed(history: Seq<OperationView>, i: int, o: OperationView)
    requires
        0 <= i < history.len(),
        o.outcome is Some,
    ensures
        completed_count(history.update(i, o)) >= completed_count(history),
    decreases history.len(),
{
    let (d, last) = (history.drop_last(), history.last());
    let t = history.update(i, o);
    if i == history.len() - 1 {
        assert(t.drop_last() =~= d);
    } else {
        lemma_closed(d, i, o);
        assert(t.drop_last() =~= d.update(i, o));
    }
}

proof fn lemma_answer(
    history: Seq<OperationView>,
    id: u64,
    now: Nanos,
    outcome: OutcomeView,
)
    ensures
        completed_count(completed_at(history, id, now, outcome)) >= completed_count(history),
{
    lemma_last_with_id(history, id);
    if let Some(i) = last_with_id(history, id) {
        lemma_closed(
            history,
            i,
            OperationView { completed: Some(now), outcome: Some(outcome), ..history[i] },
        );
    }
}

proof fn lemma_client(c: ClientView, io: IoState, history: Seq<OperationView>, now: Nanos)
    ensures
        completed_count(c.begin(io, history, now).history) == completed_count(history),
        completed_count(c.think(io, history, now).history) == completed_count(history),
        completed_count(c.retry(io, history, now).history) == completed_count(history),
{
    assert forall|o: OperationView| o.outcome is None implies completed_count(
        #[trigger] history.push(o),
    ) == completed_count(history) by {
        lemma_open(history, o);
    }
}

proof fn lemma_client_timer(
    c: ClientView,
    io: IoState,
    history: Seq<OperationView>,
    now: Nanos,
    timer: u64,
)
    ensures
        completed_count(c.on_timer(io, history, now, timer).history) >= completed_count(history),
{
    reveal(ClientView::on_timer);
    lemma_client(c.rotated(), io, history, now);
    lemma_client(c, io, history, now);
}

proof fn lemma_client_bytes(
    c: ClientView,
    io: IoState,
    history: Seq<OperationView>,
    now: Nanos,
    bytes: Seq<u8>,
)
    ensures
        completed_count(c.on_bytes(io, history, now, bytes).history) >= completed_count(history),
{
    reveal(ClientView::on_bytes);
    if let (Some((req_id, outcome)), Some(f)) = (ClientView::reply_in(bytes), c.inflight) {
        lemma_client(c.redirected(outcome), io, history, now);
        let after = completed_at(history, recorded_id(c.id, f.history_id), now, outcome);
        lemma_answer(history, recorded_id(c.id, f.history_id), now, outcome);
        assert forall|o: OperationView| o.outcome is None implies completed_count(
            #[trigger] after.push(o),
        ) == completed_count(after) by {
            lemma_open(after, o);
        }
    }
}

/// What every event keeps to: no answer is taken back, and what was noted of
/// the recovery stays, unless the cluster recovers then and the answers of that
/// moment are noted.
pub open spec fn onward(c: ClusterView, d: ClusterView) -> bool {
    &&& d.cfg == c.cfg
    &&& d.clients.len() == c.clients.len()
    &&& completed_count(c.history) <= completed_count(d.history)
    &&& {
        ||| d.completed_at_recovery == c.completed_at_recovery && d.recovered_at == c.recovered_at
        ||| d.recovered_at is Some && completed_count(c.history) <= d.completed_at_recovery
            <= completed_count(d.history)
    }
}

proof fn lemma_onward(c: ClusterView, d: ClusterView, e: ClusterView)
    requires
        onward(c, d),
        onward(d, e),
    ensures
        onward(c, e),
{
}

proof fn lemma_on_timer(c: ClusterView, node: NodeId, timer: u64, now: Nanos)
    requires
        c.wf(),
    ensures
        onward(c, c.on_timer(node, timer, now)),
{
    reveal(ClusterView::on_timer);
    if c.world.has(node) && c.is_client(node) {
        lemma_client_timer(
            c.clients[node.0 - c.cfg.servers],
            sim_state(c.world, node),
            c.history,
            now,
            timer,
        );
    }
}

proof fn lemma_on_deliver(c: ClusterView, from: NodeId, to: NodeId, payload: Seq<u8>, now: Nanos)
    requires
        c.wf(),
    ensures
        onward(c, c.on_deliver(from, to, payload, now)),
{
    reveal(ClusterView::on_deliver);
    reveal(ClusterView::noted);
    reveal(ClusterView::delivered);
    reveal(WorldView::accept_delivery);
    let d = c.noted(from, payload);
    if d.world.has(to) && d.is_client(to) {
        let (world, ok) = d.world.accept_delivery(from, to);
        lemma_client_bytes(
            d.clients[to.0 - d.cfg.servers],
            sim_state(world, to),
            d.history,
            now,
            payload,
        );
    }
}

proof fn lemma_restart_down(c: ClusterView, now: Nanos, n: nat)
    ensures
        ({
            let d = c.restart_down(now, n);
            &&& d.history == c.history
            &&& d.cfg == c.cfg
            &&& d.clients == c.clients
            &&& d.completed_at_recovery == c.completed_at_recovery
            &&& d.recovered_at == c.recovered_at
        }),
    decreases n,
{
    reveal(ClusterView::restart);
    if n > 0 {
        lemma_restart_down(c, now, (n - 1) as nat);
    }
}

/// Recovering notes when it happened and how many operations had been answered
/// by then, and answers none itself.
pub proof fn law_recovery_is_noted(c: ClusterView, now: Nanos)
    ensures
        ({
            let d = c.struck(FaultView::Recover, now);
            &&& d.history == c.history
            &&& d.recovered_at == Some(now)
            &&& d.completed_at_recovery == answered(c.history)
            &&& d.clients == c.clients
            &&& d.cfg == c.cfg
        }),
{
    reveal(ClusterView::struck);
    reveal(ClusterView::recover);
    lemma_restart_down(c.healed(), now, c.cfg.servers as nat);
    law_completed_operations_are_counted(c.history);
}

proof fn lemma_struck(c: ClusterView, action: FaultView, now: Nanos)
    ensures
        onward(c, c.struck(action, now)),
{
    reveal(ClusterView::struck);
    reveal(ClusterView::crash);
    reveal(ClusterView::restart);
    reveal(ClusterView::cut);
    reveal(ClusterView::isolate);
    reveal(ClusterView::heal_later);
    law_recovery_is_noted(c, now);
    law_completed_operations_are_counted(c.history);
}

proof fn lemma_on_app(c: ClusterView, tag: u32, arg: u64, now: Nanos)
    ensures
        onward(c, c.on_app(tag, arg, now)),
{
    reveal(ClusterView::on_app);
    reveal(ClusterView::fault_tick);
    reveal(ClusterView::restart);
    if tag == APP_FAULT_TICK {
        let d = c.world.faults.decision(
            c.world.rng,
            now,
            c.world.up.take(c.cfg.servers as int),
            c.leader(),
            c.unsynced(),
        );
        let e = ClusterView {
            world: WorldView { faults: d.injector, rng: d.rng, ..c.world },
            ..c
        };
        if let Some(a) = d.action {
            lemma_struck(e, a, now);
        }
    }
}

proof fn lemma_dispatch(c: ClusterView, f: FiredView)
    requires
        c.wf(),
    ensures
        onward(c, c.dispatch(f)),
{
    reveal(ClusterView::dispatch);
    reveal(ClusterView::on_storage);
    match f.event {
        EventView::Timer { node, timer } => {
            lemma_on_timer(c, node, timer, f.time);
        },
        EventView::Deliver { from, to, payload, msg: _ } => {
            lemma_on_deliver(c, from, to, payload, f.time);
        },
        EventView::Storage { node, op, result } => {},
        EventView::Fault(action) => {
            lemma_struck(c, action, f.time);
        },
        EventView::App { tag, arg } => {
            lemma_on_app(c, tag, arg, f.time);
        },
    }
}

proof fn lemma_reaped(c: ClusterView, n: nat)
    ensures
        onward(c, c.reaped(n)),
    decreases n,
{
    reveal(ClusterView::reap);
    reveal(ClusterView::crash);
    if n > 0 {
        lemma_reaped(c, (n - 1) as nat);
    }
}

proof fn lemma_truncations(c: ClusterView, n: nat)
    ensures
        onward(c, c.all_truncations_checked(n)),
        c.all_truncations_checked(n).history == c.history,
        c.all_truncations_checked(n).completed_at_recovery == c.completed_at_recovery,
        c.all_truncations_checked(n).recovered_at == c.recovered_at,
    decreases n,
{
    if n > 0 {
        lemma_truncations(c, (n - 1) as nat);
    }
}

proof fn lemma_checks(c: ClusterView)
    ensures
        onward(c, c.check_invariants()),
        onward(c, c.check_claims()),
{
    reveal(ClusterView::check_invariants);
    reveal(ClusterView::check_claims);
    lemma_truncations(c, c.cfg.servers as nat);
}

/// Whatever happens, no answer is taken back, and what was noted of the
/// recovery stays until the cluster recovers again.
pub proof fn law_answers_are_kept(c: ClusterView, f: FiredView)
    requires
        sound(c),
    ensures
        onward(c, c.step(f)),
        answered(c.history) <= answered(c.step(f).history),
{
    reveal(ClusterView::step);
    let a = ClusterView { events: bump(c.events), ..c };
    lemma_dispatch(a, f);
    let b = a.dispatch(f);
    lemma_reaped(b, b.cfg.servers as nat);
    let d = b.reaped(b.cfg.servers as nat);
    lemma_checks(d);
    lemma_checks(d.check_invariants());
    law_completed_operations_are_counted(c.history);
    law_completed_operations_are_counted(c.step(f).history);
}

proof fn lemma_driven(c: ClusterView, fuel: nat)
    requires
        sound(c),
    ensures
        onward(c, c.driven(fuel)),
    decreases fuel,
{
    if !c.finished {
        let (sched, next) = c.world.sched.next();
        let d = ClusterView { world: WorldView { sched, ..c.world }, ..c };
        if let Some(f) = next {
            if fuel > 0 {
                assert(sound(d));
                law_answers_are_kept(d, f);
                law_every_event_keeps_order(d, f);
                lemma_driven(d.step(f), (fuel - 1) as nat);
                lemma_onward(d, d.step(f), c.driven(fuel));
            }
        }
    }
}

proof fn lemma_has_kind(vs: Seq<ViolationView>, kind: Seq<char>)
    requires
        count_kind(vs, kind) > 0,
    ensures
        found(vs, kind),
    decreases vs.len(),
{
    if vs.last().kind == kind {
        assert(vs[vs.len() - 1].kind == kind);
    } else {
        lemma_has_kind(vs.drop_last(), kind);
        let i = choose|i: int|
            0 <= i < vs.drop_last().len() && (#[trigger] vs.drop_last()[i]).kind == kind;
        assert(vs[i].kind == kind);
    }
}

/// Whatever is reported shows in the report, by itself or by others of its
/// kind; and it is added as long as there are fewer than three of them.
pub proof fn law_reports_show_what_was_reported(vs: Seq<ViolationView>, v: ViolationView)
    ensures
        found(reported(vs, v), v.kind),
        count_kind(vs, v.kind) < 3 ==> reported(vs, v).len() == vs.len() + 1 && reported(vs, v).last()
            == v,
        forall|k: Seq<char>| found(vs, k) ==> #[trigger] found(reported(vs, v), k),
{
    if count_kind(vs, v.kind) < 3 {
        assert(reported(vs, v)[vs.len() as int].kind == v.kind);
    } else {
        lemma_has_kind(vs, v.kind);
    }
    assert forall|k: Seq<char>| found(vs, k) implies #[trigger] found(reported(vs, v), k) by {
        let i = choose|i: int| 0 <= i < vs.len() && (#[trigger] vs[i]).kind == k;
        assert(reported(vs, v)[i] == vs[i]);
    }
}

/// A cluster that was to make progress and answered nobody since it recovered is
/// reported as wedged.
pub proof fn law_no_progress_is_reported(c: ClusterView)
    requires
        c.cfg.check_liveness,
        !c.incomplete,
        c.clients.len() > 0,
        c.recovered_at is Some,
        answered(c.history) <= c.completed_at_recovery,
    ensures
        found(c.final_report(), "no_progress_after_recovery"@),
        c.finalized().failed(),
{
    reveal(ClusterView::final_report);
    law_completed_operations_are_counted(c.history);
    let now = c.world.sched.now;
    let at = c.recovered_at->Some_0;
    let since = if now > at {
        (now - at) as u64
    } else {
        0
    };
    let v = ViolationView {
        kind: "no_progress_after_recovery"@,
        time: now,
        node: None,
        detail: "no operation completed in the "@ + seconds_text(since)
            + " after the cluster healed at "@ + seconds_text(at),
    };
    law_reports_show_what_was_reported(c.settled(), v);
    let live = reported(c.settled(), v);
    if let VerdictView::Violation { key, detail } = c.verdict().0 {
        law_reports_show_what_was_reported(
            live,
            ViolationView {
                kind: "linearizability"@,
                time: now,
                node: None,
                detail: "key "@ + key + ": "@ + detail,
            },
        );
    }
}

/// A cluster has to demonstrably recover. From the moment it healed until the
/// run is over: where as many operations were answered in the end as then, the
/// run fails for want of progress, and a run that passes has answered more.
pub proof fn law_clusters_must_recover(c: ClusterView, now: Nanos, fuel: nat)
    requires
        sound(c),
        c.cfg.check_liveness,
        c.clients.len() > 0,
    ensures
        ({
            let end = c.struck(FaultView::Recover, now).driven(fuel).check_invariants();
            &&& !end.incomplete && answered(end.history) == answered(c.history) ==> found(
                end.finalized().report,
                "no_progress_after_recovery"@,
            ) && end.finalized().failed()
            &&& !end.incomplete && !end.finalized().failed() ==> answered(end.history) > answered(
                c.history,
            )
        }),
{
    let d = c.struck(FaultView::Recover, now);
    law_recovery_is_noted(c, now);
    lemma_struck_sound(c, FaultView::Recover, now);
    lemma_driven(d, fuel);
    let e = d.driven(fuel);
    lemma_checks(e);
    let end = e.check_invariants();
    lemma_onward(d, e, end);
    law_completed_operations_are_counted(c.history);
    law_completed_operations_are_counted(end.history);
    if !end.incomplete && answered(end.history) <= end.completed_at_recovery {
        law_no_progress_is_reported(end);
    }
}

/// A whole run that passes has answered more operations than were answered when
/// the cluster healed, if it was to be checked for that.
pub proof fn law_a_passing_run_made_progress(cfg: SimConfig)
    requires
        cfg.runnable(),
        cfg.check_liveness,
        cfg.clients > 0,
        !run_of(cfg).failed(),
        !run_of(cfg).incomplete,
    ensures
        ({
            let end = ClusterView::made(cfg).ended();
            &&& run_of(cfg).history == end.history
            &&& end.recovered_at is Some ==> answered(run_of(cfg).history)
                > end.completed_at_recovery
        }),
{
    reveal(run_of);
    let end = ClusterView::made(cfg).ended();
    law_runs_stay_sound(cfg);
    lemma_driven_cfg(cfg);
    if end.recovered_at is Some && answered(end.history) <= end.completed_at_recovery {
        law_no_progress_is_reported(end);
    }
}

proof fn lemma_replicas(c: ClusterView, d: ClusterView, n: nat)
    requires
        d.servers == c.servers,
        d.world == c.world,
        d.cfg.servers == c.cfg.servers,
        d.seen == c.seen,
    ensures
        d.replicas(n) == c.replicas(n),
        d.committed(n) == c.committed(n),
    decreases n,
{
    if n > 0 {
        lemma_replicas(c, d, (n - 1) as nat);
        assert(d.running(NodeId((n - 1) as u32)) == c.running(NodeId((n - 1) as u32)));
    }
}

/// Progress is never held against a cluster: where an operation was answered
/// after it recovered, where it never recovered, where nobody asked anything or
/// where the run did not finish, the report is the same as without the check.
pub proof fn law_progress_is_no_failure(c: ClusterView)
    requires
        c.recovered_at is None || c.incomplete || c.clients.len() == 0 || answered(c.history)
            > c.completed_at_recovery,
    ensures
        c.final_report() == (ClusterView {
            cfg: SimConfig { check_liveness: false, ..c.cfg },
            ..c
        }).final_report(),
{
    let d = ClusterView { cfg: SimConfig { check_liveness: false, ..c.cfg }, ..c };
    reveal(ClusterView::final_report);
    reveal(ClusterView::settled);
    law_completed_operations_are_counted(c.history);
    lemma_replicas(c, d, c.cfg.servers as nat);
    lemma_replicas(c, d, c.seen.max_committed as nat);
    assert(d.durable_disks() =~= c.durable_disks());
}

} // verus!
