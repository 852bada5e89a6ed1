//! What holds of every run, and what a run that passes has shown.

use crate::checker::durability::{
    claim_unbacked, contradicts, diverged, holders, law_committed_is_durable, law_replicas_converge,
    not_durable, synced_lost, term_lost,
};
use crate::checker::invariants::{check_all, Audit, Seen};
use crate::checker::linearizability::{completed_at, first_fault, lemma_last_with_id, VerdictView};
use crate::checker::locality::{all_keyed, law_check_decides, store_linearizable};
use crate::checker::operation::{outcome_words, OperationView};
use crate::checker::report::{count_kind, reported, reported_all, ViolationView};
use crate::count::bump;
use crate::harness::cluster_model::{
    booted, first_nodes, run_of, seconds_text, seed_of, APP_FAULT_TICK, APP_RESTART, ClusterView,
};
use crate::harness::config::SimConfig;
use crate::harness::outcome::RunStats;
use crate::harness::workload::{recorded_id, Acted, ClientStats, ClientView};
use crate::kvstore::server::{Served, ServerView};
use crate::sim_io::effect::IoState;
use crate::sim_io::network::majority;
use crate::sim_io::storage::FILE_WAL;
use crate::sim_io::{lemma_enact_all_shape, sim_state};
use crate::simcore::disk::IoResult;
use crate::simcore::faults::{FaultConfig, FaultView};
use crate::simcore::rng::Rng;
use crate::simcore::scheduler::{EventView, FiredView};
use crate::simcore::trace::Level;
use crate::simcore::world::{clocks, WorldView};
use crate::simcore::{Nanos, NodeId};
use crate::text::decimal;
use vstd::prelude::*;

verus! {

/// Whether a server runs on a node exactly while the node is up, and every
/// operation that was recorded is about some key.
pub open spec fn sound(c: ClusterView) -> bool {
    &&& c.wf()
    &&& all_keyed(c.history)
    &&& forall|i: int| 0 <= i < c.cfg.servers ==> (#[trigger] c.world.up[i] <==> c.servers[i] is Some)
}

/// What every event keeps to: the system stays sound, and nothing that was
/// reported is forgotten.
pub open spec fn follows(c: ClusterView, d: ClusterView) -> bool {
    &&& sound(d)
    &&& d.cfg == c.cfg
    &&& c.report.is_prefix_of(d.report)
}

proof fn lemma_trans(c: ClusterView, d: ClusterView, e: ClusterView)
    requires
        follows(c, d),
        follows(d, e),
    ensures
        follows(c, e),
{
    assert(c.report =~= e.report.take(c.report.len() as int)) by {
        assert(c.report =~= d.report.take(c.report.len() as int));
        assert(d.report =~= e.report.take(d.report.len() as int));
    }
}

proof fn lemma_reported(vs: Seq<ViolationView>, v: ViolationView)
    ensures
        vs.is_prefix_of(reported(vs, v)),
        reported(vs, v).len() > 0,
{
    assert(vs =~= reported(vs, v).take(vs.len() as int));
    if vs.len() == 0 {
        assert(count_kind(vs, v.kind) == 0);
    }
}

proof fn lemma_reported_all(vs: Seq<ViolationView>, more: Seq<ViolationView>)
    ensures
        vs.is_prefix_of(reported_all(vs, more)),
        reported_all(vs, more).len() == 0 ==> vs.len() == 0 && more.len() == 0,
    decreases more.len(),
{
    if more.len() == 0 {
        assert(vs =~= vs.take(vs.len() as int));
    } else {
        let mid = reported_all(vs, more.drop_last());
        lemma_reported_all(vs, more.drop_last());
        lemma_reported(mid, more.last());
        let end = reported_all(vs, more);
        assert(vs =~= end.take(vs.len() as int)) by {
            assert(vs =~= mid.take(vs.len() as int));
            assert(mid =~= end.take(mid.len() as int));
        }
    }
}

/// A change to anything but what the promises speak of.
proof fn lemma_same(c: ClusterView, d: ClusterView)
    requires
        sound(c),
        d.cfg == c.cfg,
        d.report == c.report,
        all_keyed(d.history),
        d.servers == c.servers,
        d.clients.len() == c.clients.len(),
        d.members == c.members,
        d.truncated_seen == c.truncated_seen,
        d.world.wf(),
        d.world.up == c.world.up,
    ensures
        follows(c, d),
{
    assert(c.report =~= d.report.take(c.report.len() as int));
}

proof fn lemma_served(c: ClusterView, node: NodeId, s: Served)
    requires
        sound(c),
        node.0 < c.cfg.servers,
        c.servers[node.0 as int] is Some,
    ensures
        follows(c, c.served(node, s)),
{
    lemma_enact_all_shape(c.world, node, s.io.log);
    let d = c.served(node, s);
    assert(c.report =~= d.report.take(c.report.len() as int));
}

proof fn lemma_acted(c: ClusterView, node: NodeId, a: Acted)
    requires
        sound(c),
        c.world.has(node),
        c.is_client(node),
        all_keyed(a.history),
    ensures
        follows(c, c.acted_on(node, a)),
{
    lemma_enact_all_shape(c.world, node, a.io.log);
    lemma_same(c, c.acted_on(node, a));
}

proof fn lemma_begin(c: ClientView, io: IoState, history: Seq<OperationView>, now: Nanos)
    requires
        all_keyed(history),
    ensures
        all_keyed(c.begin(io, history, now).history),
{
}

proof fn lemma_think(c: ClientView, io: IoState, history: Seq<OperationView>, now: Nanos)
    requires
        all_keyed(history),
    ensures
        all_keyed(c.think(io, history, now).history),
{
    if !c.stopped {
        let (delay, rng) = c.rng.range_of(c.cfg.think_time.0, c.cfg.think_time.1);
        lemma_begin(ClientView { rng, ..c }, io, history, now);
    }
}

proof fn lemma_retry(c: ClientView, io: IoState, history: Seq<OperationView>, now: Nanos)
    requires
        all_keyed(history),
    ensures
        all_keyed(c.retry(io, history, now).history),
{
    if let Some(f) = c.inflight {
        let cut = ClientView::untimed(f, io);
        let words = "c"@ + decimal(c.id as nat) + " abandoning seq "@ + decimal(f.seq as nat)
            + " after "@ + decimal(f.attempts as nat) + " attempts"@;
        lemma_think(
            ClientView {
                inflight: None,
                stats: ClientStats { abandoned: bump(c.stats.abandoned), ..c.stats },
                ..c
            },
            cut.trace(Level::Info, "client"@, words),
            history,
            now,
        );
    }
}

proof fn lemma_client_timer(
    c: ClientView,
    io: IoState,
    history: Seq<OperationView>,
    now: Nanos,
    timer: u64,
)
    requires
        all_keyed(history),
    ensures
        all_keyed(c.on_timer(io, history, now, timer).history),
{
    reveal(ClientView::on_timer);
    lemma_retry(c.rotated(), io, history, now);
    lemma_begin(c, io, history, now);
}

proof fn lemma_client_bytes(
    c: ClientView,
    io: IoState,
    history: Seq<OperationView>,
    now: Nanos,
    bytes: Seq<u8>,
)
    requires
        all_keyed(history),
    ensures
        all_keyed(c.on_bytes(io, history, now, bytes).history),
{
    reveal(ClientView::on_bytes);
    if let (Some((req_id, outcome)), Some(f)) = (ClientView::reply_in(bytes), c.inflight) {
        if f.req_id == req_id {
            if outcome.is_definite() {
                let answered = completed_at(
                    history,
                    recorded_id(c.id, f.history_id),
                    now,
                    outcome,
                );
                lemma_last_with_id(history, recorded_id(c.id, f.history_id));
                assert(all_keyed(answered));
                let words = "c"@ + decimal(c.id as nat) + " seq "@ + decimal(f.seq as nat)
                    + " => "@ + outcome_words(outcome);
                lemma_think(
                    ClientView {
                        inflight: None,
                        stats: ClientStats { completed: bump(c.stats.completed), ..c.stats },
                        ..c.remembered(f.op, outcome)
                    },
                    ClientView::untimed(f, io).trace(Level::Debug, "client"@, words).observe(
                        "client_done"@,
                        seq![c.id as u64, f.seq],
                    ),
                    answered,
                    now,
                );
            } else {
                lemma_retry(c.redirected(outcome), io, history, now);
            }
        }
    }
}

proof fn lemma_on_timer(c: ClusterView, node: NodeId, timer: u64, now: Nanos)
    requires
        sound(c),
    ensures
        follows(c, c.on_timer(node, timer, now)),
{
    reveal(ClusterView::on_timer);
    lemma_same(c, c);
    if c.world.has(node) {
        if c.is_client(node) {
            let a = c.clients[node.0 - c.cfg.servers].on_timer(
                sim_state(c.world, node),
                c.history,
                now,
                timer,
            );
            lemma_client_timer(
                c.clients[node.0 - c.cfg.servers],
                sim_state(c.world, node),
                c.history,
                now,
                timer,
            );
            lemma_acted(c, node, a);
        } else if let Some(s) = c.running(node) {
            lemma_served(c, node, s.on_timer(sim_state(c.world, node), timer));
        }
    }
}

proof fn lemma_on_storage(c: ClusterView, node: NodeId, op: u64, result: IoResult)
    requires
        sound(c),
    ensures
        follows(c, c.on_storage(node, op, result)),
{
    reveal(ClusterView::on_storage);
    lemma_same(c, c);
    if let Some(s) = c.running(node) {
        lemma_served(
            c,
            node,
            s.on_storage(sim_state(c.world, node), op, result == IoResult::Done),
        );
    }
}

proof fn lemma_delivered(c: ClusterView, from: NodeId, to: NodeId, payload: Seq<u8>, now: Nanos)
    requires
        sound(c),
        c.world.has(to),
    ensures
        follows(c, c.delivered(from, to, payload, now)),
{
    reveal(ClusterView::delivered);
    let d = ClusterView {
        stats: RunStats { messages_delivered: bump(c.stats.messages_delivered), ..c.stats },
        ..c
    };
    lemma_same(c, d);
    if d.is_client(to) {
        let a = d.clients[to.0 - d.cfg.servers].on_bytes(
            sim_state(d.world, to),
            d.history,
            now,
            payload,
        );
        lemma_client_bytes(
            d.clients[to.0 - d.cfg.servers],
            sim_state(d.world, to),
            d.history,
            now,
            payload,
        );
        lemma_acted(d, to, a);
        lemma_trans(c, d, d.acted_on(to, a));
    } else if let Some(s) = d.servers[to.0 as int] {
        let t = s.on_bytes(sim_state(d.world, to), from, payload);
        lemma_served(d, to, t);
        lemma_trans(c, d, d.served(to, t));
    }
}

proof fn lemma_on_deliver(c: ClusterView, from: NodeId, to: NodeId, payload: Seq<u8>, now: Nanos)
    requires
        sound(c),
    ensures
        follows(c, c.on_deliver(from, to, payload, now)),
{
    reveal(ClusterView::on_deliver);
    reveal(ClusterView::noted);
    reveal(WorldView::accept_delivery);
    let d = c.noted(from, payload);
    lemma_same(c, d);
    if d.world.has(to) {
        let (world, ok) = d.world.accept_delivery(from, to);
        let e = ClusterView { world, ..d };
        lemma_same(c, e);
        if ok {
            lemma_delivered(e, from, to, payload, now);
            lemma_trans(c, e, e.delivered(from, to, payload, now));
        }
    }
}

proof fn lemma_crash(c: ClusterView, node: NodeId)
    requires
        sound(c),
    ensures
        follows(c, c.crash(node)),
        c.crash(node).world.sched.now == c.world.sched.now,
{
    reveal(ClusterView::crash);
    reveal(WorldView::crash_node);
    reveal(WorldView::observe);
    let d = c.crash(node);
    assert(c.report =~= d.report.take(c.report.len() as int));
}

proof fn lemma_restart(c: ClusterView, node: NodeId, now: Nanos)
    requires
        sound(c),
    ensures
        follows(c, c.restart(node, now)),
        node.0 < c.cfg.servers ==> c.restart(node, now).world.up[node.0 as int],
        forall|i: int|
            0 <= i < c.cfg.servers && c.world.up[i] ==> #[trigger] c.restart(node, now).world.up[i],
        c.restart(node, now).world.net.blocked == c.world.net.blocked,
        c.restart(node, now).world.net.slow == c.world.net.slow,
{
    reveal(ClusterView::restart);
    reveal(WorldView::restart_node);
    reveal(WorldView::observe);
    let d = c.restart(node, now);
    if node.0 < c.cfg.servers && !c.world.up[node.0 as int] {
        let w = c.world.restart_node(node);
        let s = ServerView::recover(
            sim_state(w, node),
            node,
            c.members,
            c.cfg.raft,
            seed_of(c.cfg.seed, node, w.incarnation[node.0 as int]),
        );
        lemma_enact_all_shape(w, node, s.io.log);
        let first = if c.pre_crash.contains_key(node.0) {
            let (before, durable) = c.pre_crash[node.0];
            let more = synced_lost(
                now,
                node,
                before,
                durable,
                s.server.raft.log.entries,
            );
            lemma_reported_all(c.report, more);
            reported_all(c.report, more)
        } else {
            c.report
        };
        assert(c.report.is_prefix_of(first)) by {
            assert(c.report =~= c.report.take(c.report.len() as int));
        }
        if c.acted.contains_key(node.0) {
            let more = term_lost(
                now,
                node,
                c.acted[node.0],
                d.world.disks[node.0 as int].file(
                    FILE_WAL,
                ).durable,
            );
            lemma_reported_all(first, more);
            assert(d.report == reported_all(first, more));
            assert(c.report =~= d.report.take(c.report.len() as int)) by {
                assert(c.report =~= first.take(c.report.len() as int));
                assert(first =~= d.report.take(first.len() as int));
            }
        }
    } else {
        lemma_same(c, c);
    }
}

proof fn lemma_restart_down(c: ClusterView, now: Nanos, n: nat)
    requires
        sound(c),
        n <= c.cfg.servers,
    ensures
        follows(c, c.restart_down(now, n)),
        forall|i: int| 0 <= i < n ==> #[trigger] c.restart_down(now, n).world.up[i],
        c.restart_down(now, n).world.net.blocked == c.world.net.blocked,
        c.restart_down(now, n).world.net.slow == c.world.net.slow,
    decreases n,
{
    if n == 0 {
        lemma_same(c, c);
    } else {
        lemma_restart_down(c, now, (n - 1) as nat);
        let d = c.restart_down(now, (n - 1) as nat);
        let e = d.restart(NodeId((n - 1) as u32), now);
        lemma_restart(d, NodeId((n - 1) as u32), now);
        lemma_trans(c, d, e);
        assert forall|i: int| 0 <= i < n implies #[trigger] c.restart_down(now, n).world.up[i] by {
            if i < n - 1 {
                assert(d.world.up[i]);
                assert(e.world.up[i]);
            }
        }
    }
}

proof fn lemma_heal_later(c: ClusterView)
    requires
        sound(c),
    ensures
        follows(c, c.heal_later()),
{
    reveal(ClusterView::heal_later);
    lemma_same(c, c.heal_later());
}

proof fn lemma_cut(c: ClusterView, groups: Seq<Seq<NodeId>>)
    requires
        sound(c),
    ensures
        follows(c, c.cut(groups)),
{
    reveal(ClusterView::cut);
    reveal(ClusterView::heal_later);
    reveal(WorldView::observe);
    lemma_same(c, c.cut(groups));
}

proof fn lemma_isolate(c: ClusterView, node: NodeId)
    requires
        sound(c),
    ensures
        follows(c, c.isolate(node)),
{
    reveal(ClusterView::isolate);
    reveal(ClusterView::heal_later);
    reveal(WorldView::observe);
    lemma_same(c, c.isolate(node));
}

proof fn lemma_recover(c: ClusterView, now: Nanos)
    requires
        sound(c),
    ensures
        follows(c, c.recover(now)),
        forall|i: int| 0 <= i < c.cfg.servers ==> #[trigger] c.recover(now).world.up[i],
        c.recover(now).world.net.blocked == Set::<(u32, u32)>::empty(),
        c.recover(now).world.net.slow == Set::<(u32, u32)>::empty(),
        c.recover(now).recovered_at == Some(now),
{
    reveal(ClusterView::recover);
    reveal(WorldView::log);
    let h = c.healed();
    lemma_same(c, h);
    lemma_restart_down(h, now, c.cfg.servers as nat);
    let d = h.restart_down(now, c.cfg.servers as nat);
    lemma_trans(c, h, d);
    lemma_same(d, c.recover(now));
    lemma_trans(c, d, c.recover(now));
}

pub proof fn lemma_struck(c: ClusterView, action: FaultView, now: Nanos)
    requires
        sound(c),
    ensures
        follows(c, c.struck(action, now)),
{
    reveal(ClusterView::struck);
    match action {
        FaultView::Crash(node) => {
            lemma_crash(c, node);
            let d = c.crash(node);
            lemma_same(d, c.struck(action, now));
            lemma_trans(c, d, c.struck(action, now));
        },
        FaultView::Restart(node) => {
            lemma_restart(c, node, now);
        },
        FaultView::Partition(groups) => {
            lemma_cut(c, groups);
        },
        FaultView::Isolate(node) => {
            lemma_isolate(c, node);
        },
        FaultView::ClockJump(node, delta) => {
            reveal(WorldView::clock_jump);
            reveal(WorldView::observe);
            lemma_same(c, c.struck(action, now));
        },
        FaultView::Recover => {
            lemma_recover(c, now);
        },
        _ => {
            lemma_same(c, c.struck(action, now));
        },
    }
}

proof fn lemma_fault_tick(c: ClusterView, now: Nanos)
    requires
        sound(c),
    ensures
        follows(c, c.fault_tick(now)),
{
    reveal(ClusterView::fault_tick);
    let d = c.world.faults.decision(
        c.world.rng,
        now,
        c.world.up.take(c.cfg.servers as int),
        c.leader(),
        c.unsynced(),
    );
    let e = ClusterView {
        world: WorldView { faults: d.injector, rng: d.rng, ..c.world },
        ..c
    };
    lemma_same(c, e);
    let f = match d.action {
        Some(a) => e.struck(a, now),
        None => e,
    };
    if let Some(a) = d.action {
        lemma_struck(e, a, now);
        lemma_trans(c, e, f);
    }
    lemma_same(f, c.fault_tick(now));
    lemma_trans(c, f, c.fault_tick(now));
}

proof fn lemma_on_app(c: ClusterView, tag: u32, arg: u64, now: Nanos)
    requires
        sound(c),
    ensures
        follows(c, c.on_app(tag, arg, now)),
{
    reveal(ClusterView::on_app);
    reveal(WorldView::observe);
    if tag == APP_FAULT_TICK {
        lemma_fault_tick(c, now);
    } else if tag == APP_RESTART {
        lemma_restart(c, NodeId(arg as u32), now);
    } else {
        lemma_same(c, c.on_app(tag, arg, now));
    }
}

proof fn lemma_dispatch(c: ClusterView, f: FiredView)
    requires
        sound(c),
    ensures
        follows(c, c.dispatch(f)),
{
    reveal(ClusterView::dispatch);
    match f.event {
        EventView::Timer { node, timer } => {
            lemma_on_timer(c, node, timer, f.time);
        },
        EventView::Deliver { from, to, payload, msg: _ } => {
            lemma_on_deliver(c, from, to, payload, f.time);
        },
        EventView::Storage { node, op, result } => {
            lemma_on_storage(c, node, op, result);
        },
        EventView::Fault(action) => {
            lemma_struck(c, action, f.time);
        },
        EventView::App { tag, arg } => {
            lemma_on_app(c, tag, arg, f.time);
        },
    }
}

proof fn lemma_reaped(c: ClusterView, n: nat)
    requires
        sound(c),
        n <= c.cfg.servers,
    ensures
        follows(c, c.reaped(n)),
    decreases n,
{
    if n == 0 {
        lemma_same(c, c);
    } else {
        lemma_reaped(c, (n - 1) as nat);
        let d = c.reaped((n - 1) as nat);
        reveal(ClusterView::reap);
        lemma_same(d, d);
        lemma_crash(d, NodeId((n - 1) as u32));
        let e = d.crash(NodeId((n - 1) as u32));
        if d.reap(n - 1) != d {
            lemma_same(e, d.reap(n - 1));
            lemma_trans(d, e, d.reap(n - 1));
        }
        lemma_trans(c, d, c.reaped(n));
    }
}

proof fn lemma_claims(c: ClusterView, n: nat)
    ensures
        c.report.is_prefix_of(c.claims_checked(n)),
    decreases n,
{
    if n == 0 {
        assert(c.report =~= c.report.take(c.report.len() as int));
    } else {
        lemma_claims(c, (n - 1) as nat);
        let mid = c.claims_checked((n - 1) as nat);
        let node = NodeId((n - 1) as u32);
        if let Some(s) = c.running(node) {
            let more = claim_unbacked(
                c.world.sched.now,
                node,
                s.raft.log.entries,
                s.raft.durable_index(),
                c.world.disks[n - 1].file(FILE_WAL).durable,
            );
            lemma_reported_all(mid, more);
            let end = c.claims_checked(n);
            assert(c.report =~= end.take(c.report.len() as int)) by {
                assert(c.report =~= mid.take(c.report.len() as int));
                assert(mid =~= end.take(mid.len() as int));
            }
        }
    }
}

proof fn lemma_check_claims(c: ClusterView)
    requires
        sound(c),
    ensures
        follows(c, c.check_claims()),
{
    reveal(ClusterView::check_claims);
    lemma_claims(c, c.cfg.servers as nat);
}

proof fn lemma_truncations(c: ClusterView, n: nat)
    requires
        sound(c),
        n <= c.cfg.servers,
    ensures
        follows(c, c.all_truncations_checked(n)),
    decreases n,
{
    if n == 0 {
        lemma_same(c, c);
    } else {
        lemma_truncations(c, (n - 1) as nat);
        let d = c.all_truncations_checked((n - 1) as nat);
        let e = d.truncations_checked(n - 1);
        if let Some(s) = d.servers[n - 1] {
            let v = ViolationView {
                kind: "truncated_committed"@,
                time: d.world.sched.now,
                node: Some(NodeId((n - 1) as u32)),
                detail:
                    "node truncated its log at or below its own commit index                          (commit "@
                    + decimal(s.raft.commit_index as nat) + ")"@,
            };
            lemma_reported(d.report, v);
        }
        assert(d.report.is_prefix_of(e.report)) by {
            assert(d.report =~= d.report.take(d.report.len() as int));
        }
        lemma_trans(c, d, e);
    }
}

proof fn lemma_check_invariants(c: ClusterView)
    requires
        sound(c),
    ensures
        follows(c, c.check_invariants()),
{
    reveal(ClusterView::check_invariants);
    let n = c.cfg.servers as nat;
    lemma_truncations(c, n);
    let d = c.all_truncations_checked(n);
    let e = c.check_invariants();
    let a = check_all(
        Audit {
            seen: Seen { checks: bump(d.seen.checks), ..d.seen },
            out: Seq::empty(),
        },
        d.world.sched.now,
        Seq::new(n, |i: int| d.facts_of(i)),
        n,
    );
    lemma_reported_all(d.report, a.out);
    assert(follows(d, e));
    lemma_trans(c, d, e);
}

/// Whatever happens: a server runs on a node exactly while the node is up, and
/// nothing that was reported is forgotten.
pub proof fn law_every_event_keeps_order(c: ClusterView, f: FiredView)
    requires
        sound(c),
    ensures
        follows(c, c.step(f)),
{
    reveal(ClusterView::step);
    let a = ClusterView { events: bump(c.events), ..c };
    lemma_same(c, a);
    lemma_dispatch(a, f);
    let b = a.dispatch(f);
    lemma_trans(c, a, b);
    lemma_reaped(b, b.cfg.servers as nat);
    let d = b.reaped(b.cfg.servers as nat);
    lemma_trans(c, b, d);
    lemma_check_invariants(d);
    lemma_trans(c, d, d.check_invariants());
    lemma_check_claims(d);
    lemma_trans(c, d, d.check_claims());
    let e = d.check_invariants();
    lemma_check_claims(e);
    lemma_trans(c, e, e.check_claims());
}

/// Once the fault window closes, every server is up and running again, and no
/// link is cut or slow.
pub proof fn law_everyone_comes_back(c: ClusterView, now: Nanos)
    requires
        sound(c),
    ensures
        ({
            let d = c.struck(FaultView::Recover, now);
            &&& forall|i: int|
                0 <= i < c.cfg.servers ==> #[trigger] d.world.up[i] && d.servers[i] is Some
            &&& d.world.net.blocked == Set::<(u32, u32)>::empty()
            &&& d.world.net.slow == Set::<(u32, u32)>::empty()
        }),
{
    reveal(ClusterView::struck);
    lemma_recover(c, now);
    let d = c.struck(FaultView::Recover, now);
    assert forall|i: int| 0 <= i < c.cfg.servers implies #[trigger] d.world.up[i] && d.servers[i] is Some by {
        assert(c.recover(now).world.up[i]);
    }
}

proof fn lemma_driven(c: ClusterView, fuel: nat)
    requires
        sound(c),
    ensures
        follows(c, c.driven(fuel)),
    decreases fuel,
{
    lemma_same(c, c);
    if !c.finished {
        let (sched, next) = c.world.sched.next();
        let d = ClusterView { world: WorldView { sched, ..c.world }, ..c };
        lemma_same(c, d);
        if let Some(f) = next {
            if fuel > 0 {
                law_every_event_keeps_order(d, f);
                lemma_trans(c, d, d.step(f));
                lemma_driven(d.step(f), (fuel - 1) as nat);
                lemma_trans(c, d.step(f), c.driven(fuel));
            } else {
                lemma_same(c, c.driven(fuel));
            }
        }
    }
}

proof fn lemma_staggered(c: ClusterView, n: nat)
    requires
        sound(c),
    ensures
        follows(c, c.staggered(n)),
    decreases n,
{
    lemma_same(c, c);
    if n > 0 {
        lemma_staggered(c, (n - 1) as nat);
        reveal(WorldView::set_timer);
        let d = c.staggered((n - 1) as nat);
        lemma_same(d, c.staggered(n));
        lemma_trans(c, d, c.staggered(n));
    }
}

proof fn lemma_booted(cfg: SimConfig, n: nat)
    requires
        cfg.runnable(),
        n <= cfg.servers,
    ensures
        booted(cfg, n).0.wf(),
        booted(cfg, n).0.up == Seq::new((cfg.servers + cfg.clients) as nat, |i: int| true),
        booted(cfg, n).1.len() == n,
        forall|i: int| 0 <= i < n ==> #[trigger] booted(cfg, n).1[i] is Some,
    decreases n,
{
    if n == 0 {
        let w = WorldView::made(cfg.world());
        lemma_clocks(cfg.faults, Rng::seeded(cfg.seed), cfg.world().nodes as nat);
        assert(w.up =~= Seq::new((cfg.servers + cfg.clients) as nat, |i: int| true));
    } else {
        lemma_booted(cfg, (n - 1) as nat);
        let (w, servers) = booted(cfg, (n - 1) as nat);
        let node = NodeId((n - 1) as u32);
        let s = ServerView::recover(
            sim_state(w, node),
            node,
            first_nodes(cfg.servers as nat),
            cfg.raft,
            seed_of(cfg.seed, node, 0),
        );
        lemma_enact_all_shape(w, node, s.io.log);
    }
}

proof fn lemma_clocks(cfg: FaultConfig, rng: Rng, n: nat)
    ensures
        clocks(cfg, rng, n).0.len() == n,
    decreases n,
{
    if n > 0 {
        lemma_clocks(cfg, rng, (n - 1) as nat);
    }
}

/// A run starts with every server up and running, and the system is sound from
/// then until the run is over.
pub proof fn law_runs_stay_sound(cfg: SimConfig)
    requires
        cfg.runnable(),
    ensures
        sound(ClusterView::made(cfg)),
        sound(ClusterView::made(cfg).ended()),
{
    let c = ClusterView::made(cfg);
    lemma_booted(cfg, cfg.servers as nat);
    assert(sound(c));
    lemma_same(c, c.scheduled());
    lemma_staggered(c.scheduled(), c.clients.len());
    lemma_driven(c.bootstrapped(), cfg.max_events as nat);
    lemma_check_invariants(c.bootstrapped().driven(cfg.max_events as nat));
}

/// A run that passes has shown this: its recording was sane, replicas that
/// applied as much as the first one agree with it, every entry seen to commit
/// is on stable storage on a majority and contradicted by no disk, the cluster
/// got back to work, and what the clients saw is no violation.
pub proof fn law_a_clean_run_is_correct(cfg: SimConfig)
    requires
        cfg.runnable(),
        !run_of(cfg).failed(),
    ensures
        ({
            let c = ClusterView::made(cfg).ended();
            let rs = c.replicas(cfg.servers as nat);
            let cs = c.committed(c.seen.max_committed as nat);
            &&& first_fault(c.history, 0) is None
            &&& forall|i: int|
                1 <= i < rs.len() && (#[trigger] rs[i]).applied == rs[0].applied ==> rs[i].state
                    == rs[0].state
            &&& forall|i: int|
                0 <= i < cs.len() ==> {
                    &&& holders(c.durable_disks(), #[trigger] cs[i]) >= majority(cfg.servers as nat)
                    &&& forall|j: int|
                        0 <= j < cfg.servers ==> !contradicts(
                            #[trigger] c.durable_disks()[j].1,
                            cs[i],
                        )
                }
            &&& !c.wedged()
            &&& !(run_of(cfg).verdict is Violation)
        }),
{
    reveal(run_of);
    let c = ClusterView::made(cfg).ended();
    law_runs_stay_sound(cfg);
    lemma_driven_cfg(cfg);
    reveal(ClusterView::final_report);
    reveal(ClusterView::settled);
    let now = c.world.sched.now;
    let rs = c.replicas(cfg.servers as nat);
    let cs = c.committed(c.seen.max_committed as nat);
    let recorded = match first_fault(c.history, 0) {
        Some(e) => {
            let v = ViolationView {
                kind: "history_malformed"@,
                time: now,
                node: None,
                detail: "the harness recorded an impossible history: "@ + e,
            };
            lemma_reported(c.report, v);
            reported(c.report, v)
        },
        None => c.report,
    };
    let parted = diverged(now, rs, rs.len());
    let lost = not_durable(now, cs, c.durable_disks(), cfg.servers as nat);
    lemma_reported_all(recorded, parted);
    lemma_reported_all(reported_all(recorded, parted), lost);
    law_replicas_converge(now, rs, rs.len());
    law_committed_is_durable(now, cs, c.durable_disks(), cfg.servers as nat);
    let settled = c.settled();
    assert(settled == reported_all(reported_all(recorded, parted), lost));
    let live = if c.wedged() {
        let at = c.recovered_at->Some_0;
        let since = if now > at {
            (now - at) as u64
        } else {
            0
        };
        let v = ViolationView {
            kind: "no_progress_after_recovery"@,
            time: now,
            node: None,
            detail: "no operation completed in the "@ + seconds_text(since)
                + " after the cluster healed at "@ + seconds_text(at),
        };
        lemma_reported(settled, v);
        reported(settled, v)
    } else {
        settled
    };
    if let VerdictView::Violation { key, detail } = c.verdict().0 {
        let v = ViolationView {
            kind: "linearizability"@,
            time: now,
            node: None,
            detail: "key "@ + key + ": "@ + detail,
        };
        lemma_reported(live, v);
    }
    assert(settled.len() == 0);
}

pub proof fn lemma_driven_cfg(cfg: SimConfig)
    requires
        cfg.runnable(),
    ensures
        ClusterView::made(cfg).ended().cfg == cfg,
{
    let c = ClusterView::made(cfg);
    lemma_booted(cfg, cfg.servers as nat);
    assert(sound(c));
    lemma_same(c, c.scheduled());
    lemma_staggered(c.scheduled(), c.clients.len());
    lemma_driven(c.bootstrapped(), cfg.max_events as nat);
    lemma_check_invariants(c.bootstrapped().driven(cfg.max_events as nat));
}

/// The verdict of a run is right about what its clients saw: a history found
/// linearizable is, and one reported as a violation is not.
pub proof fn law_verdicts_are_right(cfg: SimConfig)
    requires
        cfg.runnable(),
    ensures
        run_of(cfg).verdict is Linearizable ==> store_linearizable(run_of(cfg).history),
        run_of(cfg).verdict is Violation ==> !store_linearizable(run_of(cfg).history),
{
    reveal(run_of);
    let c = ClusterView::made(cfg).ended();
    law_runs_stay_sound(cfg);
    law_check_decides(c.history, c.cfg.linearizability_budget, 0);
}

proof fn lemma_prefix(a: Seq<ViolationView>, b: Seq<ViolationView>, c: Seq<ViolationView>)
    requires
        a.is_prefix_of(b),
        b.is_prefix_of(c),
    ensures
        a.is_prefix_of(c),
{
    assert(a =~= c.take(a.len() as int)) by {
        assert(a =~= b.take(a.len() as int));
        assert(b =~= c.take(b.len() as int));
    }
}

proof fn lemma_final_report(c: ClusterView)
    ensures
        c.report.is_prefix_of(c.final_report()),
{
    reveal(ClusterView::final_report);
    reveal(ClusterView::settled);
    let now = c.world.sched.now;
    let rs = c.replicas(c.cfg.servers as nat);
    let recorded = match first_fault(c.history, 0) {
        Some(e) => {
            let v = ViolationView {
                kind: "history_malformed"@,
                time: now,
                node: None,
                detail: "the harness recorded an impossible history: "@ + e,
            };
            lemma_reported(c.report, v);
            reported(c.report, v)
        },
        None => c.report,
    };
    let parted = diverged(now, rs, rs.len());
    let lost = not_durable(
        now,
        c.committed(c.seen.max_committed as nat),
        c.durable_disks(),
        c.cfg.servers as nat,
    );
    assert(c.report =~= c.report.take(c.report.len() as int));
    lemma_reported_all(recorded, parted);
    lemma_prefix(c.report, recorded, reported_all(recorded, parted));
    lemma_reported_all(reported_all(recorded, parted), lost);
    lemma_prefix(c.report, reported_all(recorded, parted), c.settled());
    let live = if c.wedged() {
        let at = c.recovered_at->Some_0;
        let since = if now > at {
            (now - at) as u64
        } else {
            0
        };
        let v = ViolationView {
            kind: "no_progress_after_recovery"@,
            time: now,
            node: None,
            detail: "no operation completed in the "@ + seconds_text(since)
                + " after the cluster healed at "@ + seconds_text(at),
        };
        lemma_reported(c.settled(), v);
        lemma_prefix(c.report, c.settled(), reported(c.settled(), v));
        reported(c.settled(), v)
    } else {
        c.settled()
    };
    if let VerdictView::Violation { key, detail } = c.verdict().0 {
        let v = ViolationView {
            kind: "linearizability"@,
            time: now,
            node: None,
            detail: "key "@ + key + ": "@ + detail,
        };
        lemma_reported(live, v);
        lemma_prefix(c.report, live, reported(live, v));
    }
}

/// A violation reported at any event fails the run, whatever happens after it,
/// and it stays the run's signature.
pub proof fn law_reports_fail_the_run(c: ClusterView, fuel: nat)
    requires
        sound(c),
        c.report.len() > 0,
    ensures
        ({
            let end = c.driven(fuel).check_invariants();
            &&& end.finalized().failed()
            &&& end.finalized().signature() == c.report[0].kind
        }),
{
    lemma_driven(c, fuel);
    let d = c.driven(fuel);
    lemma_check_invariants(d);
    let end = d.check_invariants();
    lemma_trans(c, d, end);
    lemma_final_report(end);
    let last = end.final_report();
    lemma_prefix(c.report, end.report, last);
    assert(c.report =~= last.take(c.report.len() as int));
    assert(last.take(c.report.len() as int)[0] == last[0]);
}

} // verus!
