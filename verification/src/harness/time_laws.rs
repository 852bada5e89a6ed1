//! Time in a run: nothing is ever scheduled into the past, so it only moves
//! forward.

use crate::count::{bump, plus};
use crate::harness::cluster_model::{
    booted, first_nodes, placed, seed_of, ClusterView, APP_FAULT_TICK, APP_HEAL, APP_RESTART, APP_STOP,
    APP_STOP_CLIENTS, STAGGER,
};
use crate::harness::config::SimConfig;
use crate::harness::outcome::RunStats;
use crate::harness::workload::TIMER_THINK;
use crate::kvstore::server::ServerView;
use crate::sim_io::effect::Effect;
use crate::sim_io::{enact, enact_all, sim_state};
use crate::simcore::disk::{FileId, IoResult, WriteView};
use crate::simcore::faults::FaultView;
use crate::simcore::net::{NetStats, NetView};
use crate::simcore::rng::Rng;
use crate::simcore::scheduler::{kept, lemma_place, place_for, EventView, FiredView, SchedView};
use crate::simcore::world::{survives, WorldView};
use crate::simcore::{Nanos, NodeId};
use vstd::prelude::*;

verus! {

/// Whether an event fires no later than another: it is earlier, or at the same
/// time and was not scheduled later.
pub open spec fn no_later(a: FiredView, b: FiredView) -> bool {
    a.time < b.time || (a.time == b.time && a.id <= b.id)
}

/// Whether events are queued in the order of their times and, at the same time,
/// in the order they were scheduled in, and none in the past.
pub open spec fn timed(s: SchedView) -> bool {
    &&& forall|i: int, j: int|
        0 <= i <= j < s.queue.len() ==> no_later(#[trigger] s.queue[i], #[trigger] s.queue[j])
    &&& forall|i: int|
        0 <= i < s.queue.len() ==> (#[trigger] s.queue[i]).time >= s.now && s.queue[i].id
            <= s.next_id
}

/// Whether a change leaves the time as it is and schedules nothing in the past.
pub open spec fn calm(s: SchedView, t: SchedView) -> bool {
    &&& t.now == s.now
    &&& timed(s) ==> timed(t)
}

proof fn lemma_after(s: SchedView, delay: Nanos, e: EventView)
    ensures
        calm(s, s.after(delay, e)),
{
    let time = plus(s.now, delay);
    let p = place_for(s.queue, time);
    let t = s.after(delay, e);
    lemma_place(s.queue, time);
    if timed(s) {
        assert forall|i: int| 0 <= i < t.queue.len() && i != p implies #[trigger] t.queue[i]
            == s.queue[if i < p {
            i
        } else {
            i - 1
        }] by {}
        assert forall|i: int, j: int| 0 <= i <= j < t.queue.len() implies no_later(
            #[trigger] t.queue[i],
            #[trigger] t.queue[j],
        ) by {
            if j == p && i < p {
                assert(no_later(s.queue[i], s.queue[p - 1]));
            } else if i == p && j > p {
                assert(s.queue[j - 1].time > time);
            } else if i != p && j != p {
                assert(no_later(
                    s.queue[if i < p {
                        i
                    } else {
                        i - 1
                    }],
                    s.queue[if j < p {
                        j
                    } else {
                        j - 1
                    }],
                ));
            }
        }
    }
}

proof fn lemma_kept(q: Seq<FiredView>, keep: spec_fn(EventView) -> bool)
    requires
        forall|i: int, j: int|
            0 <= i <= j < q.len() ==> no_later(#[trigger] q[i], #[trigger] q[j]),
    ensures
        forall|i: int, j: int|
            0 <= i <= j < kept(q, keep).len() ==> no_later(
                #[trigger] kept(q, keep)[i],
                #[trigger] kept(q, keep)[j],
            ),
        forall|i: int| 0 <= i < kept(q, keep).len() ==> q.contains(#[trigger] kept(q, keep)[i]),
    decreases q.len(),
{
    if q.len() > 0 {
        let d = q.drop_last();
        lemma_kept(d, keep);
        let k = kept(q, keep);
        assert forall|i: int| 0 <= i < k.len() implies q.contains(#[trigger] k[i]) by {
            if i < kept(d, keep).len() {
                let j = choose|j: int| 0 <= j < d.len() && d[j] == kept(d, keep)[i];
                assert(q[j] == k[i]);
            } else {
                assert(q[q.len() - 1] == k[i]);
            }
        }
        assert forall|i: int, j: int| 0 <= i <= j < k.len() implies no_later(
            #[trigger] k[i],
            #[trigger] k[j],
        ) by {
            if i < kept(d, keep).len() && j == kept(d, keep).len() {
                let x = choose|x: int| 0 <= x < d.len() && d[x] == kept(d, keep)[i];
                assert(no_later(q[x], q[q.len() - 1]));
            }
        }
    }
}

proof fn lemma_dispatch(
    net: NetView,
    rng: Rng,
    sched: SchedView,
    from: NodeId,
    to: NodeId,
    payload: Seq<u8>,
)
    ensures
        calm(sched, net.dispatch(rng, sched, from, to, payload).sched),
{
    let out = net.dispatch(rng, sched, from, to, payload).sched;
    assert(exists|delay: Nanos, e: EventView| out == #[trigger] sched.after(delay, e));
    let (delay, e) = choose|delay: Nanos, e: EventView| out == #[trigger] sched.after(delay, e);
    lemma_after(sched, delay, e);
}

proof fn lemma_send(w: WorldView, from: NodeId, to: NodeId, payload: Seq<u8>)
    ensures
        calm(w.sched, w.send(from, to, payload).0.sched),
{
    reveal(WorldView::send);
    let net = w.net;
    let (lost, r) = w.rng.chance_of(net.cfg.drop_ppm);
    let (twice, q) = r.chance_of(net.cfg.duplicate_ppm);
    let stats = NetStats { sent: bump(net.stats.sent), ..net.stats };
    let dup = NetView {
        stats: NetStats {
            duplicated: bump(stats.duplicated),
            ..stats
        },
        ..net
    };
    let one = dup.dispatch(q, w.sched, from, to, payload);
    lemma_dispatch(dup, q, w.sched, from, to, payload);
    lemma_dispatch(one.net, one.rng, one.sched, from, to, payload);
    lemma_dispatch(NetView { stats, ..net }, q, w.sched, from, to, payload);
}

proof fn lemma_enact(w: WorldView, node: NodeId, e: Effect)
    ensures
        calm(w.sched, enact(w, node, e).sched),
{
    reveal(enact);
    match e {
        Effect::SetTimer { delay, tag } => {
            reveal(WorldView::set_timer);
            lemma_after(w.sched, delay, EventView::Timer { node, timer: tag });
        },
        Effect::CancelTimer { handle } => {
            reveal(WorldView::cancel);
        },
        Effect::Send { to, payload } => {
            lemma_send(w, node, to, payload);
        },
        Effect::Append { file, bytes } => {
            lemma_disk_write(w, node, file, w.appending(node, file, bytes));
        },
        Effect::WriteAt { file, offset, bytes } => {
            lemma_disk_write(w, node, file, WriteView::Data { offset, bytes });
        },
        Effect::SetLen { file, len } => {
            lemma_disk_write(w, node, file, WriteView::SetLen(len));
        },
        Effect::Sync { file } => {
            reveal(WorldView::disk_sync);
            let (disk, rng, done) = w.disks[node.0 as int].sync(w.rng, file);
            lemma_after(
                w.sched,
                done.delay,
                EventView::Storage { node, op: done.op, result: done.result },
            );
        },
        Effect::Trace { level, category, message } => {
            reveal(WorldView::log);
        },
        Effect::Observe { label, args } => {
            reveal(WorldView::observe);
        },
        Effect::Draw { lo, hi } => {},
    }
}

proof fn lemma_disk_write(
    w: WorldView,
    node: NodeId,
    file: FileId,
    write: WriteView,
)
    ensures
        calm(w.sched, w.disk_write(node, file, write).sched),
{
    reveal(WorldView::disk_write);
    let (disk, rng, done) = w.disks[node.0 as int].issue(w.rng, write, file);
    lemma_after(
        w.sched,
        done.delay,
        EventView::Storage { node, op: done.op, result: done.result },
    );
}

proof fn lemma_enact_all(w: WorldView, node: NodeId, log: Seq<Effect>)
    ensures
        calm(w.sched, enact_all(w, node, log).sched),
    decreases log.len(),
{
    reveal(enact_all);
    if log.len() > 0 {
        lemma_enact_all(w, node, log.drop_last());
        lemma_enact(enact_all(w, node, log.drop_last()), node, log.last());
    }
}

proof fn lemma_on_timer(c: ClusterView, node: NodeId, timer: u64, now: Nanos)
    ensures
        calm(c.world.sched, c.on_timer(node, timer, now).world.sched),
{
    reveal(ClusterView::on_timer);
    if c.world.has(node) {
        if c.is_client(node) {
            let a = c.clients[node.0 - c.cfg.servers].on_timer(
                sim_state(c.world, node),
                c.history,
                now,
                timer,
            );
            lemma_enact_all(c.world, node, a.io.log);
        } else if let Some(s) = c.running(node) {
            let t = s.on_timer(sim_state(c.world, node), timer);
            lemma_enact_all(c.world, node, t.io.log);
        }
    }
}

proof fn lemma_on_storage(c: ClusterView, node: NodeId, op: u64, result: IoResult)
    ensures
        calm(c.world.sched, c.on_storage(node, op, result).world.sched),
{
    reveal(ClusterView::on_storage);
    if let Some(s) = c.running(node) {
        let t = s.on_storage(sim_state(c.world, node), op, result == IoResult::Done);
        lemma_enact_all(c.world, node, t.io.log);
    }
}

proof fn lemma_on_deliver(c: ClusterView, from: NodeId, to: NodeId, payload: Seq<u8>, now: Nanos)
    ensures
        calm(c.world.sched, c.on_deliver(from, to, payload, now).world.sched),
{
    reveal(ClusterView::on_deliver);
    reveal(ClusterView::noted);
    reveal(ClusterView::delivered);
    reveal(WorldView::accept_delivery);
    let d = c.noted(from, payload);
    if d.world.has(to) {
        let (world, ok) = d.world.accept_delivery(from, to);
        if ok {
            if d.is_client(to) {
                let a = d.clients[to.0 - d.cfg.servers].on_bytes(
                    sim_state(world, to),
                    d.history,
                    now,
                    payload,
                );
                lemma_enact_all(world, to, a.io.log);
            } else if let Some(s) = d.servers[to.0 as int] {
                let t = s.on_bytes(sim_state(world, to), from, payload);
                lemma_enact_all(world, to, t.io.log);
            }
        }
    }
}

proof fn lemma_crash(c: ClusterView, node: NodeId)
    ensures
        calm(c.world.sched, c.crash(node).world.sched),
{
    reveal(ClusterView::crash);
    reveal(WorldView::crash_node);
    reveal(WorldView::observe);
    if timed(c.world.sched) {
        let q = c.world.sched.queue;
        let keep = |e: EventView| survives(e, node);
        lemma_kept(q, keep);
        assert forall|i: int| 0 <= i < kept(q, keep).len() implies (#[trigger] kept(q, keep)[i]).time
            >= c.world.sched.now && kept(q, keep)[i].id <= c.world.sched.next_id by {
            assert(q.contains(kept(q, keep)[i]));
        }
    }
}

proof fn lemma_restart(c: ClusterView, node: NodeId, now: Nanos)
    ensures
        calm(c.world.sched, c.restart(node, now).world.sched),
{
    reveal(ClusterView::restart);
    reveal(WorldView::restart_node);
    reveal(WorldView::observe);
    let w = c.world.restart_node(node);
    let s = ServerView::recover(
        sim_state(w, node),
        node,
        c.members,
        c.cfg.raft,
        seed_of(c.cfg.seed, node, w.incarnation[node.0 as int]),
    );
    lemma_enact_all(w, node, s.io.log);
}

proof fn lemma_restart_down(c: ClusterView, now: Nanos, n: nat)
    ensures
        calm(c.world.sched, c.restart_down(now, n).world.sched),
    decreases n,
{
    if n > 0 {
        lemma_restart_down(c, now, (n - 1) as nat);
        lemma_restart(c.restart_down(now, (n - 1) as nat), NodeId((n - 1) as u32), now);
    }
}

proof fn lemma_heal_later(c: ClusterView)
    ensures
        calm(c.world.sched, c.heal_later().world.sched),
{
    reveal(ClusterView::heal_later);
    let d = c.world.faults.cfg.partition_duration;
    let (delay, rng) = c.world.rng.range_of(d.0, d.1);
    lemma_after(c.world.sched, delay, EventView::App { tag: APP_HEAL, arg: 0 });
}

proof fn lemma_struck(c: ClusterView, action: FaultView, now: Nanos)
    ensures
        calm(c.world.sched, c.struck(action, now).world.sched),
{
    reveal(ClusterView::struck);
    match action {
        FaultView::Crash(node) => {
            lemma_crash(c, node);
        },
        FaultView::Restart(node) => {
            lemma_restart(c, node, now);
        },
        FaultView::Partition(groups) => {
            reveal(ClusterView::cut);
            reveal(WorldView::observe);
            let (gs, rng) = placed(groups, c.world.rng, c.clients, c.clients.len());
            let d = ClusterView { world: WorldView { rng, ..c.world }, ..c }.healed();
            lemma_heal_later(
                ClusterView {
                    world: WorldView { net: d.world.net.partition(gs), ..d.world }.observe(
                        None,
                        "partition"@,
                        seq![gs.len() as u64],
                    ),
                    stats: RunStats { partitions: bump(d.stats.partitions), ..d.stats },
                    ..d
                },
            );
        },
        FaultView::Isolate(node) => {
            reveal(ClusterView::isolate);
            reveal(WorldView::observe);
            lemma_heal_later(
                ClusterView {
                    world: WorldView { net: c.world.net.isolate(node), ..c.world }.observe(
                        Some(node),
                        "isolate"@,
                        Seq::empty(),
                    ),
                    stats: RunStats { partitions: bump(c.stats.partitions), ..c.stats },
                    ..c
                },
            );
        },
        FaultView::ClockJump(node, delta) => {
            reveal(WorldView::clock_jump);
            reveal(WorldView::observe);
        },
        FaultView::Recover => {
            reveal(ClusterView::recover);
            reveal(WorldView::log);
            lemma_restart_down(c.healed(), now, c.cfg.servers as nat);
        },
        _ => {},
    }
}

proof fn lemma_fault_tick(c: ClusterView, now: Nanos)
    ensures
        calm(c.world.sched, c.fault_tick(now).world.sched),
{
    reveal(ClusterView::fault_tick);
    let d = c.world.faults.decision(
        c.world.rng,
        now,
        c.world.up.take(c.cfg.servers as int),
        c.leader(),
        c.unsynced(),
    );
    let e = ClusterView {
        world: WorldView { faults: d.injector, rng: d.rng, ..c.world },
        ..c
    };
    let f = match d.action {
        Some(a) => e.struck(a, now),
        None => e,
    };
    if let Some(a) = d.action {
        lemma_struck(e, a, now);
    }
    let t = f.world.faults.cfg.tick_interval;
    let (delay, rng) = f.world.rng.range_of(t.0, t.1);
    lemma_after(f.world.sched, delay, EventView::App { tag: APP_FAULT_TICK, arg: 0 });
}

proof fn lemma_dispatched(c: ClusterView, f: FiredView)
    ensures
        calm(c.world.sched, c.dispatch(f).world.sched),
{
    reveal(ClusterView::dispatch);
    match f.event {
        EventView::Timer { node, timer } => {
            lemma_on_timer(c, node, timer, f.time);
        },
        EventView::Deliver { from, to, payload, msg: _ } => {
            lemma_on_deliver(c, from, to, payload, f.time);
        },
        EventView::Storage { node, op, result } => {
            lemma_on_storage(c, node, op, result);
        },
        EventView::Fault(action) => {
            lemma_struck(c, action, f.time);
        },
        EventView::App { tag, arg } => {
            reveal(ClusterView::on_app);
            reveal(WorldView::observe);
            lemma_fault_tick(c, f.time);
            lemma_restart(c, NodeId(arg as u32), f.time);
        },
    }
}

proof fn lemma_reaped(c: ClusterView, n: nat)
    ensures
        calm(c.world.sched, c.reaped(n).world.sched),
    decreases n,
{
    if n > 0 {
        lemma_reaped(c, (n - 1) as nat);
        let d = c.reaped((n - 1) as nat);
        reveal(ClusterView::reap);
        lemma_crash(d, NodeId((n - 1) as u32));
        let e = d.crash(NodeId((n - 1) as u32));
        let r = e.world.faults.cfg.restart_delay;
        let (delay, rng) = e.world.rng.range_of(r.0, r.1);
        lemma_after(
            e.world.sched,
            delay,
            EventView::App { tag: APP_RESTART, arg: (n - 1) as u64 },
        );
    }
}

proof fn lemma_truncations(c: ClusterView, n: nat)
    ensures
        c.all_truncations_checked(n).world == c.world,
    decreases n,
{
    if n > 0 {
        lemma_truncations(c, (n - 1) as nat);
    }
}

proof fn lemma_checks(c: ClusterView)
    ensures
        c.check_invariants().world == c.world,
        c.check_claims().world == c.world,
{
    reveal(ClusterView::check_invariants);
    reveal(ClusterView::check_claims);
    lemma_truncations(c, c.cfg.servers as nat);
}

/// Dealing with an event takes no time, and schedules nothing in the past.
pub proof fn law_events_take_no_time(c: ClusterView, f: FiredView)
    ensures
        calm(c.world.sched, c.step(f).world.sched),
{
    reveal(ClusterView::step);
    let a = ClusterView { events: bump(c.events), ..c };
    lemma_dispatched(a, f);
    let b = a.dispatch(f);
    lemma_reaped(b, b.cfg.servers as nat);
    let d = b.reaped(b.cfg.servers as nat);
    lemma_checks(d);
    lemma_checks(d.check_invariants());
}

proof fn lemma_next(s: SchedView)
    requires
        timed(s),
    ensures
        timed(s.next().0),
        s.next().0.now >= s.now,
        s.next().1 matches Some(f) ==> f.time == s.next().0.now,
    decreases s.queue.len(),
{
    if s.queue.len() > 0 {
        let f = s.queue[0];
        let rest = s.queue.drop_first();
        assert forall|i: int| 0 <= i < rest.len() implies (#[trigger] rest[i]).time >= f.time
            && rest[i].id <= s.next_id by {
            assert(rest[i] == s.queue[i + 1]);
            assert(no_later(s.queue[0], s.queue[i + 1]));
        }
        assert forall|i: int, j: int| 0 <= i <= j < rest.len() implies no_later(
            #[trigger] rest[i],
            #[trigger] rest[j],
        ) by {
            assert(no_later(s.queue[i + 1], s.queue[j + 1]));
        }
        if s.cancelled.contains(f.id) {
            let t = SchedView { queue: rest, cancelled: s.cancelled.remove(f.id), ..s };
            assert forall|i: int| 0 <= i < t.queue.len() implies (#[trigger] t.queue[i]).time
                >= t.now && t.queue[i].id <= t.next_id by {
                assert(rest[i] == s.queue[i + 1]);
            }
            lemma_next(t);
        }
    }
}

/// Over any stretch of a run time only moves forward, and what is still to
/// happen stays in order and in the future.
pub proof fn law_time_only_moves_forward(c: ClusterView, fuel: nat)
    requires
        timed(c.world.sched),
    ensures
        timed(c.driven(fuel).world.sched),
        c.driven(fuel).world.sched.now >= c.world.sched.now,
    decreases fuel,
{
    if !c.finished {
        lemma_next(c.world.sched);
        let (sched, next) = c.world.sched.next();
        let d = ClusterView { world: WorldView { sched, ..c.world }, ..c };
        if let Some(f) = next {
            if fuel > 0 {
                law_events_take_no_time(d, f);
                law_time_only_moves_forward(d.step(f), (fuel - 1) as nat);
            }
        }
    }
}

proof fn lemma_booted(cfg: SimConfig, n: nat)
    ensures
        timed(booted(cfg, n).0.sched),
        booted(cfg, n).0.sched.now == 0,
    decreases n,
{
    if n > 0 {
        lemma_booted(cfg, (n - 1) as nat);
        let (w, servers) = booted(cfg, (n - 1) as nat);
        let node = NodeId((n - 1) as u32);
        let s = ServerView::recover(
            sim_state(w, node),
            node,
            first_nodes(cfg.servers as nat),
            cfg.raft,
            seed_of(cfg.seed, node, 0),
        );
        lemma_enact_all(w, node, s.io.log);
    }
}

proof fn lemma_staggered(c: ClusterView, n: nat)
    ensures
        calm(c.world.sched, c.staggered(n).world.sched),
    decreases n,
{
    if n > 0 {
        lemma_staggered(c, (n - 1) as nat);
        reveal(WorldView::set_timer);
        let d = c.staggered((n - 1) as nat);
        let (delay, rng) = d.world.rng.range_of(0, STAGGER);
        lemma_after(
            d.world.sched,
            delay,
            EventView::Timer { node: d.clients[n - 1].node, timer: TIMER_THINK },
        );
    }
}

/// A run starts at the beginning of time, with everything it has planned still
/// to come.
pub proof fn law_runs_start_in_order(cfg: SimConfig)
    ensures
        timed(ClusterView::made(cfg).bootstrapped().world.sched),
        ClusterView::made(cfg).bootstrapped().world.sched.now == 0,
{
    let c = ClusterView::made(cfg);
    lemma_booted(cfg, cfg.servers as nat);
    let s = c.world.sched;
    let stop_clients = plus(cfg.duration, cfg.settle);
    let stop = plus(stop_clients, cfg.drain);
    let (x, y, z) = (
        EventView::App { tag: APP_FAULT_TICK, arg: 0 },
        EventView::App { tag: APP_STOP_CLIENTS, arg: 0 },
        EventView::App { tag: APP_STOP, arg: 0 },
    );
    assert(s.now == 0);
    let a = s.after(cfg.faults.window.0, x);
    lemma_after(s, cfg.faults.window.0, x);
    let b = a.after(stop_clients, y);
    lemma_after(a, stop_clients, y);
    lemma_after(b, stop, z);
    assert(c.scheduled().world.sched == b.after(stop, z));
    lemma_staggered(c.scheduled(), c.clients.len());
}

} // verus!
