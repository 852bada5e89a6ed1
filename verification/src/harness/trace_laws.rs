//! Tracing changes nothing: a silent run and a fully traced run agree on
//! everything but the trace.

use crate::count::bump;
use crate::harness::cluster_model::{booted, first_nodes, placed, run_of, seed_of, ClusterView};
use crate::harness::config::SimConfig;
use crate::harness::outcome::{RunStats, RunView};
use crate::harness::workload::Acted;
use crate::kvstore::server::{Served, ServerView};
use crate::sim_io::{lemma_enact_all_silent, sim_env, sim_state};
use crate::simcore::disk::IoResult;
use crate::simcore::faults::FaultView;
use crate::simcore::scheduler::{EventView, FiredView};
use crate::simcore::trace::Level;
use crate::simcore::world::WorldView;
use crate::simcore::{Nanos, NodeId};
use vstd::prelude::*;

verus! {

/// The same configuration without tracing.
pub open spec fn untraced(cfg: SimConfig) -> SimConfig {
    SimConfig { trace_level: Level::Off, ..cfg }
}

/// The same system without tracing, its log emptied.
pub open spec fn silenced(c: ClusterView) -> ClusterView {
    ClusterView { world: c.world.silent(), cfg: untraced(c.cfg), ..c }
}

proof fn lemma_state(w: WorldView, node: NodeId)
    ensures
        sim_state(w.silent(), node) == sim_state(w, node),
{
    reveal(sim_env);
    assert(w.silent().silent() =~= w.silent());
}

proof fn lemma_served(c: ClusterView, node: NodeId, s: Served)
    ensures
        silenced(c).served(node, s) == silenced(c.served(node, s)),
{
    lemma_enact_all_silent(c.world, node, s.io.log);
}

proof fn lemma_acted(c: ClusterView, node: NodeId, a: Acted)
    ensures
        silenced(c).acted_on(node, a) == silenced(c.acted_on(node, a)),
{
    lemma_enact_all_silent(c.world, node, a.io.log);
}

proof fn lemma_on_timer(c: ClusterView, node: NodeId, timer: u64, now: Nanos)
    ensures
        silenced(c).on_timer(node, timer, now) == silenced(c.on_timer(node, timer, now)),
{
    reveal(ClusterView::on_timer);
    lemma_state(c.world, node);
    if c.world.has(node) {
        if c.is_client(node) {
            let a = c.clients[node.0 - c.cfg.servers].on_timer(
                sim_state(c.world, node),
                c.history,
                now,
                timer,
            );
            lemma_acted(c, node, a);
        } else if let Some(s) = c.running(node) {
            lemma_served(c, node, s.on_timer(sim_state(c.world, node), timer));
        }
    }
}

proof fn lemma_on_storage(c: ClusterView, node: NodeId, op: u64, result: IoResult)
    ensures
        silenced(c).on_storage(node, op, result) == silenced(c.on_storage(node, op, result)),
{
    reveal(ClusterView::on_storage);
    lemma_state(c.world, node);
    if let Some(s) = c.running(node) {
        lemma_served(
            c,
            node,
            s.on_storage(sim_state(c.world, node), op, result == IoResult::Done),
        );
    }
}

proof fn lemma_delivered(c: ClusterView, from: NodeId, to: NodeId, payload: Seq<u8>, now: Nanos)
    ensures
        silenced(c).delivered(from, to, payload, now) == silenced(
            c.delivered(from, to, payload, now),
        ),
{
    reveal(ClusterView::delivered);
    let d = ClusterView {
        stats: RunStats { messages_delivered: bump(c.stats.messages_delivered), ..c.stats },
        ..c
    };
    lemma_state(d.world, to);
    if d.is_client(to) {
        let a = d.clients[to.0 - d.cfg.servers].on_bytes(
            sim_state(d.world, to),
            d.history,
            now,
            payload,
        );
        lemma_acted(d, to, a);
    } else if let Some(s) = d.servers[to.0 as int] {
        lemma_served(d, to, s.on_bytes(sim_state(d.world, to), from, payload));
    }
}

proof fn lemma_on_deliver(c: ClusterView, from: NodeId, to: NodeId, payload: Seq<u8>, now: Nanos)
    ensures
        silenced(c).on_deliver(from, to, payload, now) == silenced(
            c.on_deliver(from, to, payload, now),
        ),
{
    reveal(ClusterView::on_deliver);
    reveal(ClusterView::noted);
    reveal(WorldView::accept_delivery);
    let d = c.noted(from, payload);
    assert(silenced(c).noted(from, payload) == silenced(d));
    if d.world.has(to) {
        let (world, ok) = d.world.accept_delivery(from, to);
        let e = ClusterView { world, ..d };
        assert(d.world.silent().accept_delivery(from, to) == (world.silent(), ok));
        if ok {
            lemma_delivered(e, from, to, payload, now);
        }
    }
}

proof fn lemma_crash(c: ClusterView, node: NodeId)
    ensures
        silenced(c).crash(node) == silenced(c.crash(node)),
{
    reveal(ClusterView::crash);
    reveal(WorldView::crash_node);
    reveal(WorldView::observe);
    assert(c.world.silent().crash_node(node) =~= c.world.crash_node(node).silent());
}

proof fn lemma_restart(c: ClusterView, node: NodeId, now: Nanos)
    ensures
        silenced(c).restart(node, now) == silenced(c.restart(node, now)),
{
    reveal(ClusterView::restart);
    reveal(WorldView::restart_node);
    reveal(WorldView::observe);
    let w = c.world.restart_node(node);
    assert(c.world.silent().restart_node(node) =~= w.silent());
    lemma_state(w, node);
    let s = ServerView::recover(
        sim_state(w, node),
        node,
        c.members,
        c.cfg.raft,
        seed_of(c.cfg.seed, node, w.incarnation[node.0 as int]),
    );
    lemma_enact_all_silent(w, node, s.io.log);
}

proof fn lemma_restart_down(c: ClusterView, now: Nanos, n: nat)
    ensures
        silenced(c).restart_down(now, n) == silenced(c.restart_down(now, n)),
    decreases n,
{
    if n > 0 {
        lemma_restart_down(c, now, (n - 1) as nat);
        lemma_restart(c.restart_down(now, (n - 1) as nat), NodeId((n - 1) as u32), now);
    }
}

proof fn lemma_heal_later(c: ClusterView)
    ensures
        silenced(c).heal_later() == silenced(c.heal_later()),
{
    reveal(ClusterView::heal_later);
}

proof fn lemma_cut(c: ClusterView, groups: Seq<Seq<NodeId>>)
    ensures
        silenced(c).cut(groups) == silenced(c.cut(groups)),
{
    reveal(ClusterView::cut);
    reveal(WorldView::observe);
    let (gs, rng) = placed(groups, c.world.rng, c.clients, c.clients.len());
    let d = ClusterView { world: WorldView { rng, ..c.world }, ..c }.healed();
    let e = ClusterView {
        world: WorldView { net: d.world.net.partition(gs), ..d.world }.observe(
            None,
            "partition"@,
            seq![gs.len() as u64],
        ),
        stats: RunStats { partitions: bump(d.stats.partitions), ..d.stats },
        ..d
    };
    lemma_heal_later(e);
}

proof fn lemma_isolate(c: ClusterView, node: NodeId)
    ensures
        silenced(c).isolate(node) == silenced(c.isolate(node)),
{
    reveal(ClusterView::isolate);
    reveal(WorldView::observe);
    let e = ClusterView {
        world: WorldView { net: c.world.net.isolate(node), ..c.world }.observe(
            Some(node),
            "isolate"@,
            Seq::empty(),
        ),
        stats: RunStats { partitions: bump(c.stats.partitions), ..c.stats },
        ..c
    };
    lemma_heal_later(e);
}

proof fn lemma_log(w: WorldView, level: Level, node: Option<NodeId>, category: Seq<char>, message: Seq<char>)
    ensures
        w.silent().log(level, node, category, message) == w.log(
            level,
            node,
            category,
            message,
        ).silent(),
{
    reveal(WorldView::log);
    assert(w.silent().log(level, node, category, message) =~= w.log(
        level,
        node,
        category,
        message,
    ).silent());
}

proof fn lemma_recover(c: ClusterView, now: Nanos)
    ensures
        silenced(c).recover(now) == silenced(c.recover(now)),
{
    reveal(ClusterView::recover);
    let h = c.healed();
    lemma_restart_down(h, now, c.cfg.servers as nat);
    let d = h.restart_down(now, c.cfg.servers as nat);
    lemma_log(d.world, Level::Info, None, "harness"@, "fault window closed; cluster healed"@);
}

proof fn lemma_clock_jump(w: WorldView, node: NodeId, delta: i64)
    ensures
        w.silent().clock_jump(node, delta) == w.clock_jump(node, delta).silent(),
{
    reveal(WorldView::clock_jump);
    reveal(WorldView::observe);
    assert(w.silent().clock_jump(node, delta) =~= w.clock_jump(node, delta).silent());
}

proof fn lemma_struck(c: ClusterView, action: FaultView, now: Nanos)
    ensures
        silenced(c).struck(action, now) == silenced(c.struck(action, now)),
{
    reveal(ClusterView::struck);
    match action {
        FaultView::Crash(node) => {
            lemma_crash(c, node);
        },
        FaultView::Restart(node) => {
            lemma_restart(c, node, now);
        },
        FaultView::Partition(groups) => {
            lemma_cut(c, groups);
        },
        FaultView::Isolate(node) => {
            lemma_isolate(c, node);
        },
        FaultView::ClockJump(node, delta) => {
            lemma_clock_jump(c.world, node, delta);
        },
        FaultView::Recover => {
            lemma_recover(c, now);
        },
        _ => {},
    }
}

proof fn lemma_leading(c: ClusterView, n: nat)
    ensures
        silenced(c).leading(n) == c.leading(n),
    decreases n,
{
    if n > 0 {
        lemma_leading(c, (n - 1) as nat);
    }
}

proof fn lemma_fault_tick(c: ClusterView, now: Nanos)
    ensures
        silenced(c).fault_tick(now) == silenced(c.fault_tick(now)),
{
    reveal(ClusterView::fault_tick);
    lemma_leading(c, c.cfg.servers as nat);
    assert(silenced(c).unsynced() =~= c.unsynced());
    let d = c.world.faults.decision(
        c.world.rng,
        now,
        c.world.up.take(c.cfg.servers as int),
        c.leader(),
        c.unsynced(),
    );
    let e = ClusterView {
        world: WorldView { faults: d.injector, rng: d.rng, ..c.world },
        ..c
    };
    if let Some(a) = d.action {
        lemma_struck(e, a, now);
    }
}

proof fn lemma_on_app(c: ClusterView, tag: u32, arg: u64, now: Nanos)
    ensures
        silenced(c).on_app(tag, arg, now) == silenced(c.on_app(tag, arg, now)),
{
    reveal(ClusterView::on_app);
    reveal(WorldView::observe);
    lemma_fault_tick(c, now);
    lemma_restart(c, NodeId(arg as u32), now);
}

proof fn lemma_dispatch(c: ClusterView, f: FiredView)
    ensures
        silenced(c).dispatch(f) == silenced(c.dispatch(f)),
{
    reveal(ClusterView::dispatch);
    match f.event {
        EventView::Timer { node, timer } => {
            lemma_on_timer(c, node, timer, f.time);
        },
        EventView::Deliver { from, to, payload, msg: _ } => {
            lemma_on_deliver(c, from, to, payload, f.time);
        },
        EventView::Storage { node, op, result } => {
            lemma_on_storage(c, node, op, result);
        },
        EventView::Fault(action) => {
            lemma_struck(c, action, f.time);
        },
        EventView::App { tag, arg } => {
            lemma_on_app(c, tag, arg, f.time);
        },
    }
}

proof fn lemma_reaped(c: ClusterView, n: nat)
    ensures
        silenced(c).reaped(n) == silenced(c.reaped(n)),
    decreases n,
{
    if n > 0 {
        lemma_reaped(c, (n - 1) as nat);
        let d = c.reaped((n - 1) as nat);
        reveal(ClusterView::reap);
        lemma_crash(d, NodeId((n - 1) as u32));
    }
}

proof fn lemma_claims(c: ClusterView, n: nat)
    ensures
        silenced(c).claims_checked(n) == c.claims_checked(n),
    decreases n,
{
    if n > 0 {
        lemma_claims(c, (n - 1) as nat);
    }
}

proof fn lemma_truncations(c: ClusterView, n: nat)
    ensures
        silenced(c).all_truncations_checked(n) == silenced(c.all_truncations_checked(n)),
    decreases n,
{
    if n > 0 {
        lemma_truncations(c, (n - 1) as nat);
    }
}

proof fn lemma_check_invariants(c: ClusterView)
    ensures
        silenced(c).check_invariants() == silenced(c.check_invariants()),
{
    reveal(ClusterView::check_invariants);
    let n = c.cfg.servers as nat;
    lemma_truncations(c, n);
    let d = c.all_truncations_checked(n);
    assert(Seq::new(n, |i: int| silenced(d).facts_of(i)) =~= Seq::new(n, |i: int| d.facts_of(i)));
}

proof fn lemma_step(c: ClusterView, f: FiredView)
    ensures
        silenced(c).step(f) == silenced(c.step(f)),
{
    reveal(ClusterView::step);
    reveal(ClusterView::check_claims);
    let a = ClusterView { events: bump(c.events), ..c };
    lemma_dispatch(a, f);
    let b = a.dispatch(f);
    lemma_reaped(b, b.cfg.servers as nat);
    let d = b.reaped(b.cfg.servers as nat);
    lemma_check_invariants(d);
    lemma_claims(d, d.cfg.servers as nat);
    let e = d.check_invariants();
    lemma_claims(e, e.cfg.servers as nat);
}

proof fn lemma_driven(c: ClusterView, fuel: nat)
    ensures
        silenced(c).driven(fuel) == silenced(c.driven(fuel)),
    decreases fuel,
{
    if !c.finished {
        let (sched, next) = c.world.sched.next();
        let d = ClusterView { world: WorldView { sched, ..c.world }, ..c };
        if let Some(f) = next {
            if fuel > 0 {
                lemma_step(d, f);
                lemma_driven(d.step(f), (fuel - 1) as nat);
            }
        }
    }
}

proof fn lemma_staggered(c: ClusterView, n: nat)
    ensures
        silenced(c).staggered(n) == silenced(c.staggered(n)),
    decreases n,
{
    if n > 0 {
        lemma_staggered(c, (n - 1) as nat);
        reveal(WorldView::set_timer);
    }
}

proof fn lemma_booted(cfg: SimConfig, n: nat)
    ensures
        booted(untraced(cfg), n).0 == booted(cfg, n).0.silent(),
        booted(untraced(cfg), n).1 == booted(cfg, n).1,
    decreases n,
{
    if n == 0 {
        assert(WorldView::made(untraced(cfg).world()) =~= WorldView::made(cfg.world()).silent());
    } else {
        lemma_booted(cfg, (n - 1) as nat);
        let (w, servers) = booted(cfg, (n - 1) as nat);
        let node = NodeId((n - 1) as u32);
        lemma_state(w, node);
        let s = ServerView::recover(
            sim_state(w, node),
            node,
            first_nodes(cfg.servers as nat),
            cfg.raft,
            seed_of(cfg.seed, node, 0),
        );
        lemma_enact_all_silent(w, node, s.io.log);
    }
}

proof fn lemma_replicas(c: ClusterView, n: nat)
    ensures
        silenced(c).replicas(n) == c.replicas(n),
    decreases n,
{
    if n > 0 {
        lemma_replicas(c, (n - 1) as nat);
    }
}

proof fn lemma_committed(c: ClusterView, n: nat)
    ensures
        silenced(c).committed(n) == c.committed(n),
    decreases n,
{
    if n > 0 {
        lemma_committed(c, (n - 1) as nat);
    }
}

proof fn lemma_judged(c: ClusterView)
    ensures
        silenced(c).final_report() == c.final_report(),
        silenced(c).final_stats() == c.final_stats(),
        silenced(c).verdict() == c.verdict(),
{
    reveal(ClusterView::settled);
    reveal(ClusterView::final_report);
    reveal(ClusterView::final_stats);
    lemma_replicas(c, c.cfg.servers as nat);
    lemma_committed(c, c.seen.max_committed as nat);
    assert(silenced(c).durable_disks() =~= c.durable_disks());
}

proof fn lemma_made(cfg: SimConfig)
    ensures
        ClusterView::made(untraced(cfg)) == silenced(ClusterView::made(cfg)),
{
    lemma_booted(cfg, cfg.servers as nat);
    let (a, b) = (ClusterView::made(untraced(cfg)), silenced(ClusterView::made(cfg)));
    assert(a.clients =~= b.clients);
    assert(a =~= b);
}

proof fn lemma_untraced_run(cfg: SimConfig)
    ensures
        same_run(run_of(cfg), run_of(untraced(cfg))),
{
    reveal(run_of);
    let c = ClusterView::made(cfg);
    lemma_made(cfg);
    assert(silenced(c).scheduled() =~= silenced(c.scheduled()));
    lemma_staggered(c.scheduled(), c.clients.len());
    let b = c.bootstrapped();
    assert(silenced(c).bootstrapped() == silenced(b));
    lemma_driven(b, cfg.max_events as nat);
    let d = b.driven(cfg.max_events as nat);
    lemma_check_invariants(d);
    lemma_judged(d.check_invariants());
}

/// Whether two runs agree on everything but how they were traced.
pub open spec fn same_run(a: RunView, b: RunView) -> bool {
    &&& a.seed == b.seed
    &&& a.fingerprint == b.fingerprint
    &&& a.report == b.report
    &&& a.verdict == b.verdict
    &&& a.stats == b.stats
    &&& a.incomplete == b.incomplete
    &&& a.history == b.history
}

/// However much of a run is traced, the run is the same: the same fingerprint,
/// the same report, the same history, the same counts.
pub proof fn law_tracing_changes_nothing(cfg: SimConfig, level: Level)
    ensures
        same_run(run_of(cfg), run_of(SimConfig { trace_level: level, ..cfg })),
{
    lemma_untraced_run(cfg);
    let other = SimConfig { trace_level: level, ..cfg };
    assert(untraced(other) == untraced(cfg));
    lemma_untraced_run(other);
}

} // verus!
