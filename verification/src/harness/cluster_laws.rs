//! What happens to a cluster: how faults strike it, how it comes back, what is
//! delivered and what is noticed.

use crate::checker::durability::{
    claim_unbacked, synced_lost, term_lost, DurableState, ReplicaView,
};
use crate::checker::durability_laws::{
    law_false_claims_are_named, law_forgotten_terms_are_named, law_lost_entries_are_named, some_lost,
};
use crate::checker::invariant_laws::found;
use crate::checker::report::{reported, reported_all, ViolationView};
use crate::count::bump;
use crate::harness::cluster_model::{
    booted, client_made, counted, due, first_nodes, placed, seed_of, total, APP_FAULT_TICK, APP_HEAL, APP_RESTART,
    APP_STOP, APP_STOP_CLIENTS, CLIENT_SEED, STAGGER, ClusterView,
};
use crate::harness::config::SimConfig;
use crate::harness::liveness_laws::{
    answered, law_completed_operations_are_counted, law_reports_show_what_was_reported,
};
use crate::harness::workload::{ClientView, TIMER_THINK};
use crate::kvstore::raft_model::Role;
use crate::kvstore::server::ServerView;
use crate::kvstore::wire::decoded;
use crate::sim_io::sim_state;
use crate::sim_io::storage::FILE_WAL;
use crate::simcore::disk::IoResult;
use crate::simcore::faults::FaultView;
use crate::simcore::net::NetView;
use crate::simcore::rng::{law_below_in_range, law_range_in_bounds, Rng};
use crate::simcore::scheduler::{EventView, FiredView, SchedView};
use crate::simcore::world::{count_set, WorldView};
use crate::simcore::world_laws::{law_delays_count_from_now, law_scheduling_adds_one_event};
use crate::simcore::{Nanos, NodeId};
use crate::text::decimal;
use vstd::arithmetic::div_mod::{
    lemma_fundamental_div_mod, lemma_mod_multiples_vanish, lemma_small_mod,
};
use vstd::prelude::*;

verus! {

/// Whether an event is to come within a span of time from now.
pub open spec fn comes(s: SchedView, e: EventView, least: Nanos, most: Nanos) -> bool {
    exists|f: FiredView| #[trigger]
        s.queue.contains(f) && f.event == e && s.now + least <= f.time <= s.now + most
}

proof fn lemma_comes(s: SchedView, e: EventView, delay: Nanos, least: Nanos, most: Nanos)
    requires
        least <= delay <= most,
        s.now + most <= u64::MAX,
    ensures
        comes(s.after(delay, e), e, least, most),
        s.after(delay, e).queue.len() == s.queue.len() + 1,
{
    law_delays_count_from_now(s, delay, e);
    let f = FiredView { time: (s.now + delay) as u64, id: s.next_id, event: e };
    assert(s.after(delay, e).queue.contains(f));
}

// ---- messages --------------------------------------------------------------

/// A message is evidence about the server that sent it: the highest term it was
/// ever heard in is noted, whether the message arrives or not. Nothing else is
/// evidence of anything.
pub proof fn law_messages_are_evidence(c: ClusterView, from: NodeId, payload: Seq<u8>)
    ensures
        ({
            let d = c.noted(from, payload);
            let was = if c.acted.contains_key(from.0) {
                c.acted[from.0]
            } else {
                0
            };
            &&& d.world == c.world && d.servers == c.servers && d.report == c.report
            &&& from.0 < c.cfg.servers && decoded(payload) is Ok && decoded(payload)->Ok_0 is Raft ==> {
                let term = (decoded(payload)->Ok_0)->Raft_0.term();
                &&& d.acted.contains_key(from.0)
                &&& d.acted[from.0] >= term && d.acted[from.0] >= was
                &&& d.acted[from.0] == term || d.acted[from.0] == was
                &&& d.seen.track(from).acted_term >= term
            }
            &&& from.0 >= c.cfg.servers || decoded(payload) is Err || !(decoded(payload)->Ok_0 is Raft)
                ==> d == c
            &&& forall|k: u32|
                k != from.0 ==> (#[trigger] d.acted.contains_key(k) == c.acted.contains_key(k))
                    && d.acted[k] == c.acted[k]
        }),
{
    reveal(ClusterView::noted);
}

/// What arrives is delivered exactly where its receiver is up and its link is
/// not cut, and is counted then; otherwise nobody hears of it.
pub proof fn law_deliveries_need_a_link(
    c: ClusterView,
    from: NodeId,
    to: NodeId,
    payload: Seq<u8>,
    now: Nanos,
)
    requires
        c.wf(),
        c.stats.messages_delivered < u64::MAX,
    ensures
        ({
            let d = c.on_deliver(from, to, payload, now);
            let through = c.world.has(to) && c.world.up[to.0 as int] && !c.world.net.blocked.contains(
                (from.0, to.0),
            );
            &&& d.stats.messages_delivered - c.stats.messages_delivered == if through {
                1int
            } else {
                0
            }
            &&& !through ==> d.servers == c.servers && d.clients == c.clients && d.history == c.history
                && d.world.disks == c.world.disks && d.world.sched == c.world.sched
        }),
{
    reveal(ClusterView::on_deliver);
    reveal(ClusterView::noted);
    reveal(ClusterView::delivered);
    reveal(WorldView::accept_delivery);
}

// ---- crashes and restarts --------------------------------------------------

/// A crash takes one server down: what it had in its log, and how much of it it
/// held for durable, is kept to be compared when it comes back. No other server
/// and no client notices.
pub proof fn law_a_crash_takes_one_server(c: ClusterView, node: NodeId, now: Nanos)
    requires
        c.wf(),
        node.0 < c.cfg.servers,
        c.world.up[node.0 as int],
        c.servers[node.0 as int] is Some,
        c.stats.crashes < u64::MAX,
    ensures
        ({
            let d = c.struck(FaultView::Crash(node), now);
            let i = node.0 as int;
            let r = c.servers[i]->Some_0.raft;
            &&& d.servers[i] is None
            &&& !d.world.up[i]
            &&& d.pre_crash.contains_key(node.0)
            &&& d.pre_crash[node.0].0 == r.log.entries
            &&& d.pre_crash[node.0].1 == r.durable_index()
            &&& d.stats.crashes == c.stats.crashes + 1
            &&& forall|j: int|
                0 <= j < c.cfg.servers && j != i ==> #[trigger] d.servers[j] == c.servers[j]
            &&& d.clients == c.clients && d.history == c.history && d.report == c.report && d.acted
                == c.acted
        }),
{
    reveal(ClusterView::struck);
    reveal(ClusterView::crash);
    reveal(WorldView::crash_node);
    reveal(WorldView::observe);
}

/// A restart brings a server that is down back from its disk, and reports what
/// is missing of what it had synced and of the terms it acted in. A server that
/// is up is left alone.
pub proof fn law_a_restart_is_checked(c: ClusterView, node: NodeId, now: Nanos)
    requires
        c.wf(),
        node.0 < c.cfg.servers,
        c.stats.restarts < u64::MAX,
    ensures
        ({
            let d = c.struck(FaultView::Restart(node), now);
            let i = node.0 as int;
            &&& c.world.up[i] ==> d == c
            &&& !c.world.up[i] ==> {
                let after = d.servers[i]->Some_0.raft.log.entries;
                let term = DurableState::of(d.world.disks[i].file(FILE_WAL).durable).term;
                &&& d.servers[i] is Some
                &&& d.stats.restarts == c.stats.restarts + 1
                &&& c.pre_crash.contains_key(node.0) && some_lost(
                    c.pre_crash[node.0].0,
                    c.pre_crash[node.0].1,
                    after,
                ) ==> found(d.report, "durable_entry_lost"@)
                &&& c.acted.contains_key(node.0) && term < c.acted[node.0] ==> found(
                    d.report,
                    "durable_term_lost"@,
                )
                &&& (!c.pre_crash.contains_key(node.0) || !some_lost(
                    c.pre_crash[node.0].0,
                    c.pre_crash[node.0].1,
                    after,
                )) && (!c.acted.contains_key(node.0) || term >= c.acted[node.0]) ==> d.report
                    == c.report
                &&& forall|j: int|
                    0 <= j < c.cfg.servers && j != i ==> #[trigger] d.servers[j] == c.servers[j]
                &&& d.clients == c.clients && d.history == c.history
            }
        }),
{
    reveal(ClusterView::struck);
    reveal(ClusterView::restart);
    if !c.world.up[node.0 as int] {
        let d = c.struck(FaultView::Restart(node), now);
        let i = node.0 as int;
        let after = d.servers[i]->Some_0.raft.log.entries;
        let file = d.world.disks[i].file(FILE_WAL).durable;
        let first = if c.pre_crash.contains_key(node.0) {
            let (before, durable) = c.pre_crash[node.0];
            law_lost_entries_are_named(
                now,
                node,
                before,
                durable,
                after,
            );
            let out = synced_lost(now, node, before, durable, after);
            lemma_reported_one(c.report, out);
            reported_all(c.report, out)
        } else {
            c.report
        };
        if c.acted.contains_key(node.0) {
            law_forgotten_terms_are_named(
                now,
                node,
                c.acted[node.0],
                file,
            );
            let out = term_lost(now, node, c.acted[node.0], file);
            lemma_reported_one(first, out);
        }
    }
}

proof fn lemma_reported_one(vs: Seq<ViolationView>, more: Seq<ViolationView>)
    requires
        more.len() <= 1,
    ensures
        more.len() == 0 ==> reported_all(vs, more) == vs,
        more.len() == 1 ==> found(reported_all(vs, more), more[0].kind),
        forall|k: Seq<char>| found(vs, k) ==> #[trigger] found(reported_all(vs, more), k),
{
    if more.len() == 1 {
        assert(more.drop_last().len() == 0);
        assert(reported_all(vs, more.drop_last()) == vs);
        assert(reported_all(vs, more) == reported(vs, more[0]));
        law_reports_show_what_was_reported(vs, more[0]);
        assert forall|k: Seq<char>| found(vs, k) implies #[trigger] found(
            reported_all(vs, more),
            k,
        ) by {
            assert(found(reported(vs, more[0]), k));
        }
    }
}

/// A server that hit a storage error is taken down and comes back by itself,
/// after a pause of the length that was configured; one that did not is left
/// alone.
pub proof fn law_failed_servers_are_restarted(c: ClusterView, i: int)
    requires
        c.wf(),
        0 <= i < c.cfg.servers,
        c.servers[i] is Some,
        c.world.up[i],
        c.stats.io_failures < u64::MAX,
        ({
            let d = c.world.faults.cfg.restart_delay;
            d.0 <= d.1 && c.world.sched.now + d.1 <= u64::MAX
        }),
    ensures
        ({
            let d = c.reap(i);
            let delay = c.world.faults.cfg.restart_delay;
            &&& !c.servers[i]->Some_0.raft.failed ==> d == c
            &&& c.servers[i]->Some_0.raft.failed ==> {
                &&& d.servers[i] is None && !d.world.up[i]
                &&& d.stats.io_failures == c.stats.io_failures + 1
                &&& d.stats.crashes == c.stats.crashes
                &&& comes(
                    d.world.sched,
                    EventView::App { tag: APP_RESTART, arg: i as u64 },
                    delay.0,
                    delay.1,
                )
            }
        }),
{
    reveal(ClusterView::reap);
    reveal(ClusterView::crash);
    reveal(WorldView::crash_node);
    reveal(WorldView::observe);
    if c.servers[i]->Some_0.raft.failed {
        let e = c.crash(NodeId(i as u32));
        let delay = c.world.faults.cfg.restart_delay;
        law_range_in_bounds(e.world.rng, delay.0, delay.1);
        lemma_comes(
            e.world.sched,
            EventView::App { tag: APP_RESTART, arg: i as u64 },
            e.world.rng.range_of(delay.0, delay.1).0,
            delay.0,
            delay.1,
        );
    }
}

// ---- the network -----------------------------------------------------------

proof fn lemma_placed(groups: Seq<Seq<NodeId>>, rng: Rng, clients: Seq<ClientView>, n: nat)
    requires
        0 < groups.len() <= u64::MAX,
        n <= clients.len(),
    ensures
        ({
            let gs = placed(groups, rng, clients, n).0;
            &&& gs.len() == groups.len()
            &&& forall|g: int|
                0 <= g < groups.len() ==> (#[trigger] gs[g]).len() >= groups[g].len() && gs[g].take(
                    groups[g].len() as int,
                ) == groups[g]
            &&& forall|i: int|
                0 <= i < n ==> exists|g: int|
                    0 <= g < gs.len() && (#[trigger] gs[g]).contains((#[trigger] clients[i]).node)
        }),
    decreases n,
{
    if n == 0 {
        assert forall|g: int| 0 <= g < groups.len() implies groups[g].take(groups[g].len() as int)
            == #[trigger] groups[g] by {
            assert(groups[g].take(groups[g].len() as int) =~= groups[g]);
        }
    } else {
        lemma_placed(groups, rng, clients, (n - 1) as nat);
        let (a, r) = placed(groups, rng, clients, (n - 1) as nat);
        let b = placed(groups, rng, clients, n).0;
        law_below_in_range(r, a.len() as u64);
        let x = r.below_of(a.len() as u64).0 as int;
        assert(b[x] == a[x].push(clients[n - 1].node));
        assert forall|g: int| 0 <= g < groups.len() implies (#[trigger] b[g]).len() >= groups[g].len()
            && b[g].take(groups[g].len() as int) == groups[g] by {
            assert(a[g].take(groups[g].len() as int) == groups[g]);
            assert(b[g].take(groups[g].len() as int) =~= a[g].take(groups[g].len() as int));
        }
        assert forall|i: int| 0 <= i < n implies exists|g: int|
            0 <= g < b.len() && (#[trigger] b[g]).contains((#[trigger] clients[i]).node) by {
            if i < n - 1 {
                let g = choose|g: int|
                    0 <= g < a.len() && (#[trigger] a[g]).contains(clients[i].node);
                let k = choose|k: int| 0 <= k < a[g].len() && a[g][k] == clients[i].node;
                assert(b[g][k] == clients[i].node);
                assert(b[g].contains(clients[i].node));
            } else {
                assert(b[x][a[x].len() as int] == clients[i].node);
                assert(b[x].contains(clients[i].node));
            }
        }
    }
}

/// Clients are placed on one side or the other of a cut: every client is in one
/// of the groups, and the groups keep everyone they had, in the same order.
pub proof fn law_clients_are_placed(groups: Seq<Seq<NodeId>>, rng: Rng, clients: Seq<ClientView>, i: int)
    requires
        0 < groups.len() <= u64::MAX,
        0 <= i < clients.len(),
    ensures
        ({
            let gs = placed(groups, rng, clients, clients.len()).0;
            &&& gs.len() == groups.len()
            &&& exists|g: int| 0 <= g < gs.len() && (#[trigger] gs[g]).contains(clients[i].node)
            &&& forall|g: int|
                0 <= g < groups.len() ==> (#[trigger] gs[g]).take(groups[g].len() as int) == groups[g]
        }),
{
    lemma_placed(groups, rng, clients, clients.len());
    let gs = placed(groups, rng, clients, clients.len()).0;
    assert forall|g: int| 0 <= g < groups.len() implies (#[trigger] gs[g]).take(
        groups[g].len() as int,
    ) == groups[g] by {
        assert(gs[g].len() >= groups[g].len());
    }
    let g = choose|g: int| 0 <= g < gs.len() && (#[trigger] gs[g]).contains((clients[i]).node);
    assert(gs[g].contains(clients[i].node));
}

/// A cut replaces what was cut or slow before, is counted, and heals by itself
/// within the time that was configured. So does an isolation, which leaves other
/// cuts in place.
pub proof fn law_cuts_heal_by_themselves(
    c: ClusterView,
    groups: Seq<Seq<NodeId>>,
    node: NodeId,
    now: Nanos,
)
    requires
        c.wf(),
        c.stats.partitions < u64::MAX,
        ({
            let d = c.world.faults.cfg.partition_duration;
            d.0 <= d.1 && c.world.sched.now + d.1 <= u64::MAX
        }),
    ensures
        ({
            let span = c.world.faults.cfg.partition_duration;
            let heal = EventView::App { tag: APP_HEAL, arg: 0 };
            let a = c.struck(FaultView::Partition(groups), now);
            let b = c.struck(FaultView::Isolate(node), now);
            let gs = placed(groups, c.world.rng, c.clients, c.clients.len()).0;
            &&& comes(a.world.sched, heal, span.0, span.1)
            &&& comes(b.world.sched, heal, span.0, span.1)
            &&& a.stats.partitions == c.stats.partitions + 1
            &&& b.stats.partitions == c.stats.partitions + 1
            &&& a.world.net.slow == Set::<(u32, u32)>::empty()
            &&& a.world.net.blocked == (NetView {
                blocked: Set::empty(),
                ..c.world.net
            }).partition(gs).blocked
            &&& b.world.net.blocked == c.world.net.isolate(node).blocked
            &&& b.world.net.slow == c.world.net.slow
            &&& a.servers == c.servers && b.servers == c.servers
        }),
{
    reveal(ClusterView::struck);
    reveal(ClusterView::cut);
    reveal(ClusterView::isolate);
    reveal(ClusterView::heal_later);
    reveal(WorldView::observe);
    let span = c.world.faults.cfg.partition_duration;
    let heal = EventView::App { tag: APP_HEAL, arg: 0 };
    let rng = placed(groups, c.world.rng, c.clients, c.clients.len()).1;
    law_range_in_bounds(rng, span.0, span.1);
    law_range_in_bounds(c.world.rng, span.0, span.1);
    lemma_comes(c.world.sched, heal, rng.range_of(span.0, span.1).0, span.0, span.1);
    lemma_comes(c.world.sched, heal, c.world.rng.range_of(span.0, span.1).0, span.0, span.1);
    let gs = placed(groups, c.world.rng, c.clients, c.clients.len()).0;
    let a = c.struck(FaultView::Partition(groups), now);
    assert(a.world.net.blocked =~= (NetView {
        blocked: Set::empty(),
        ..c.world.net
    }).partition(gs).blocked);
}

/// Healing repairs every link and nothing else, whether it was due or decided;
/// a link that is slowed down is slow in one direction.
pub proof fn law_healing_repairs_every_link(c: ClusterView, now: Nanos, a: NodeId, b: NodeId)
    ensures
        ({
            let d = c.struck(FaultView::HealNetwork, now);
            let e = c.on_app(APP_HEAL, 0, now);
            let f = c.struck(FaultView::SlowLink(a, b), now);
            &&& d.world.net.blocked == Set::<(u32, u32)>::empty()
            &&& d.world.net.slow == Set::<(u32, u32)>::empty()
            &&& e.world.net.blocked == Set::<(u32, u32)>::empty()
            &&& e.world.net.slow == Set::<(u32, u32)>::empty()
            &&& d.servers == c.servers && e.servers == c.servers && d.world.up == c.world.up
            &&& f.world.net.slow == c.world.net.slow.insert((a.0, b.0))
            &&& f.world.net.blocked == c.world.net.blocked
        }),
{
    reveal(ClusterView::struck);
    reveal(ClusterView::on_app);
    reveal(WorldView::observe);
}

// ---- the run's own schedule --------------------------------------------------

/// The injector keeps ticking, at its interval, until it has let the cluster
/// recover; then it is done.
pub proof fn law_the_injector_keeps_ticking(c: ClusterView, now: Nanos)
    requires
        ({
            let d = c.fault_tick(now);
            let t = d.world.faults.cfg.tick_interval;
            t.0 <= t.1 && d.world.sched.now + t.1 <= u64::MAX
        }),
    ensures
        ({
            let d = c.fault_tick(now);
            let t = d.world.faults.cfg.tick_interval;
            !d.world.faults.recovered ==> comes(
                d.world.sched,
                EventView::App { tag: APP_FAULT_TICK, arg: 0 },
                t.0,
                t.1,
            )
        }),
{
    reveal(ClusterView::fault_tick);
    let x = c.world.faults.decision(
        c.world.rng,
        now,
        c.world.up.take(c.cfg.servers as int),
        c.leader(),
        c.unsynced(),
    );
    let decided = ClusterView {
        world: WorldView { faults: x.injector, rng: x.rng, ..c.world },
        ..c
    };
    let e = match x.action {
        Some(a) => decided.struck(a, now),
        None => decided,
    };
    if !e.world.faults.recovered {
        let t = e.world.faults.cfg.tick_interval;
        law_range_in_bounds(e.world.rng, t.0, t.1);
        lemma_comes(
            e.world.sched,
            EventView::App { tag: APP_FAULT_TICK, arg: 0 },
            e.world.rng.range_of(t.0, t.1).0,
            t.0,
            t.1,
        );
    }
}

/// Each tick of the schedule does what it is for: the clients are stopped, every
/// one of them; the run is over; a server comes back.
pub proof fn law_the_schedule_is_carried_out(c: ClusterView, arg: u64, now: Nanos, i: int)
    requires
        0 <= i < c.clients.len(),
    ensures
        ({
            let d = c.on_app(APP_STOP_CLIENTS, arg, now);
            &&& d.clients.len() == c.clients.len()
            &&& d.clients[i] == (ClientView { stopped: true, ..c.clients[i] })
            &&& d.servers == c.servers && d.world == c.world && d.finished == c.finished
        }),
        c.on_app(APP_STOP, arg, now).finished,
        c.on_app(APP_STOP, arg, now).world == c.world,
        c.on_app(APP_RESTART, arg, now) == c.struck(FaultView::Restart(NodeId(arg as u32)), now),
        c.on_app(APP_FAULT_TICK, arg, now) == c.fault_tick(now),
{
    reveal(ClusterView::on_app);
    reveal(ClusterView::struck);
}

/// A run is laid out before it starts: faults begin with their window, clients
/// stop once the run and its settling are over, and the run ends when it has
/// drained.
pub proof fn law_a_run_is_laid_out(c: ClusterView)
    requires
        c.cfg.duration + c.cfg.settle + c.cfg.drain <= u64::MAX,
    ensures
        ({
            let q = c.scheduled().world.sched.queue;
            &&& q.len() == c.world.sched.queue.len() + 3
            &&& exists|f: FiredView| #[trigger]
                q.contains(f) && f.time == c.cfg.faults.window.0 && f.event == (EventView::App {
                    tag: APP_FAULT_TICK,
                    arg: 0,
                })
            &&& exists|f: FiredView| #[trigger]
                q.contains(f) && f.time == c.cfg.duration + c.cfg.settle && f.event
                    == (EventView::App { tag: APP_STOP_CLIENTS, arg: 0 })
            &&& exists|f: FiredView| #[trigger]
                q.contains(f) && f.time == c.cfg.duration + c.cfg.settle + c.cfg.drain && f.event
                    == (EventView::App { tag: APP_STOP, arg: 0 })
        }),
{
    broadcast use vstd::seq_lib::group_to_multiset_ensures;

    let s0 = c.world.sched;
    let e1 = EventView::App { tag: APP_FAULT_TICK, arg: 0 };
    let e2 = EventView::App { tag: APP_STOP_CLIENTS, arg: 0 };
    let e3 = EventView::App { tag: APP_STOP, arg: 0 };
    let t2 = (c.cfg.duration + c.cfg.settle) as u64;
    let t3 = (c.cfg.duration + c.cfg.settle + c.cfg.drain) as u64;
    let s1 = s0.at(c.cfg.faults.window.0, e1);
    let s2 = s1.at(t2, e2);
    let s3 = s2.at(t3, e3);
    law_scheduling_adds_one_event(s0, c.cfg.faults.window.0, e1);
    law_scheduling_adds_one_event(s1, t2, e2);
    law_scheduling_adds_one_event(s2, t3, e3);
    assert(c.scheduled().world.sched == s3);
    let f1 = FiredView { time: c.cfg.faults.window.0, id: s0.next_id, event: e1 };
    let f2 = FiredView { time: t2, id: s1.next_id, event: e2 };
    let f3 = FiredView { time: t3, id: s2.next_id, event: e3 };
    assert(s1.queue.to_multiset().count(f1) > 0);
    assert(s2.queue.to_multiset().count(f1) > 0);
    assert(s3.queue.to_multiset().count(f1) > 0);
    assert(s2.queue.to_multiset().count(f2) > 0);
    assert(s3.queue.to_multiset().count(f2) > 0);
    assert(s3.queue.contains(f1) && s3.queue.contains(f2) && s3.queue.contains(f3));
}

/// Every client is set off, at a time of its own, early in the run.
pub proof fn law_clients_are_set_off(c: ClusterView, n: nat, i: int)
    requires
        0 <= i < n <= c.clients.len(),
        c.world.sched.now + STAGGER <= u64::MAX,
    ensures
        comes(
            c.staggered(n).world.sched,
            EventView::Timer { node: c.clients[i].node, timer: TIMER_THINK },
            0,
            STAGGER,
        ),
        c.staggered(n).world.sched.now == c.world.sched.now,
        c.staggered(n).clients == c.clients,
    decreases n,
{
    broadcast use vstd::seq_lib::group_to_multiset_ensures;

    reveal(WorldView::set_timer);
    let d = c.staggered((n - 1) as nat);
    lemma_staggered(c, (n - 1) as nat);
    law_range_in_bounds(d.world.rng, 0, STAGGER);
    let delay = d.world.rng.range_of(0, STAGGER).0;
    let e = EventView::Timer { node: c.clients[n - 1].node, timer: TIMER_THINK };
    lemma_comes(d.world.sched, e, delay, 0, STAGGER);
    let t = c.staggered(n).world.sched;
    assert(t == d.world.sched.after(delay, e));
    if i < n - 1 {
        law_clients_are_set_off(c, (n - 1) as nat, i);
        let mine = EventView::Timer { node: c.clients[i].node, timer: TIMER_THINK };
        let f = choose|f: FiredView| #[trigger]
            d.world.sched.queue.contains(f) && f.event == mine && d.world.sched.now + 0 <= f.time
                <= d.world.sched.now + STAGGER;
        law_scheduling_adds_one_event(
            d.world.sched,
            (d.world.sched.now + delay) as u64,
            e,
        );
        assert(t.queue.to_multiset().count(f) > 0);
        assert(t.queue.contains(f));
    }
}

proof fn lemma_staggered(c: ClusterView, n: nat)
    ensures
        c.staggered(n).world.sched.now == c.world.sched.now,
        c.staggered(n).clients == c.clients,
    decreases n,
{
    reveal(WorldView::set_timer);
    if n > 0 {
        lemma_staggered(c, (n - 1) as nat);
    }
}

/// A run goes on until it is over: it stops because its time was up, because
/// nothing was left to happen, or because it used up its budget of events, and
/// says so in that last case only.
pub proof fn law_runs_go_on_until_they_are_over(c: ClusterView, fuel: nat)
    requires
        !c.incomplete,
    ensures
        ({
            let d = c.driven(fuel);
            d.incomplete || d.finished || d.world.sched.next().1 is None
        }),
        c.finished ==> c.driven(fuel) == c,
        !c.finished && c.world.sched.next().1 is Some && fuel == 0 ==> c.driven(fuel).incomplete,
    decreases fuel,
{
    if !c.finished {
        let (sched, next) = c.world.sched.next();
        let d = ClusterView { world: WorldView { sched, ..c.world }, ..c };
        match next {
            None => {
                lemma_empty(c.world.sched);
            },
            Some(f) => {
                if fuel > 0 {
                    lemma_step_complete(d, f);
                    law_runs_go_on_until_they_are_over(d.step(f), (fuel - 1) as nat);
                }
            },
        }
    }
}

proof fn lemma_empty(s: SchedView)
    requires
        s.next().1 is None,
    ensures
        s.next().0.queue.len() == 0,
        s.next().0.next().1 is None,
    decreases s.queue.len(),
{
    if s.queue.len() > 0 {
        let f = s.queue[0];
        let t = SchedView { queue: s.queue.drop_first(), cancelled: s.cancelled.remove(f.id), ..s };
        lemma_empty(t);
    }
}

proof fn lemma_step_complete(c: ClusterView, f: FiredView)
    ensures
        c.step(f).incomplete == c.incomplete,
{
    reveal(ClusterView::step);
    reveal(ClusterView::dispatch);
    reveal(ClusterView::on_timer);
    reveal(ClusterView::on_storage);
    reveal(ClusterView::on_deliver);
    reveal(ClusterView::noted);
    reveal(ClusterView::delivered);
    reveal(ClusterView::on_app);
    reveal(ClusterView::fault_tick);
    reveal(ClusterView::check_invariants);
    reveal(ClusterView::check_claims);
    let a = ClusterView { events: bump(c.events), ..c };
    assert forall|x: ClusterView, act: FaultView, now: Nanos| (#[trigger] x.struck(
        act,
        now,
    )).incomplete == x.incomplete by {
        lemma_struck_complete(x, act, now);
    }
    assert forall|x: ClusterView, node: NodeId, now: Nanos| (#[trigger] x.restart(
        node,
        now,
    )).incomplete == x.incomplete by {
        reveal(ClusterView::restart);
    }
    let b = a.dispatch(f);
    assert(b.incomplete == c.incomplete);
    lemma_reaped_complete(b, b.cfg.servers as nat);
    let d = b.reaped(b.cfg.servers as nat);
    lemma_truncations_complete(d, d.cfg.servers as nat);
}

proof fn lemma_struck_complete(c: ClusterView, action: FaultView, now: Nanos)
    ensures
        c.struck(action, now).incomplete == c.incomplete,
{
    reveal(ClusterView::struck);
    reveal(ClusterView::crash);
    reveal(ClusterView::restart);
    reveal(ClusterView::cut);
    reveal(ClusterView::isolate);
    reveal(ClusterView::heal_later);
    reveal(ClusterView::recover);
    lemma_restart_down_complete(c.healed(), now, c.cfg.servers as nat);
}

proof fn lemma_restart_down_complete(c: ClusterView, now: Nanos, n: nat)
    ensures
        c.restart_down(now, n).incomplete == c.incomplete,
    decreases n,
{
    reveal(ClusterView::restart);
    if n > 0 {
        lemma_restart_down_complete(c, now, (n - 1) as nat);
    }
}

proof fn lemma_reaped_complete(c: ClusterView, n: nat)
    ensures
        c.reaped(n).incomplete == c.incomplete,
    decreases n,
{
    reveal(ClusterView::reap);
    reveal(ClusterView::crash);
    if n > 0 {
        lemma_reaped_complete(c, (n - 1) as nat);
    }
}

proof fn lemma_truncations_complete(c: ClusterView, n: nat)
    ensures
        c.all_truncations_checked(n).incomplete == c.incomplete,
    decreases n,
{
    if n > 0 {
        lemma_truncations_complete(c, (n - 1) as nat);
    }
}

// ---- what is looked at -------------------------------------------------------

proof fn lemma_leading(c: ClusterView, n: nat)
    requires
        n <= c.cfg.servers,
    ensures
        match c.leading(n) {
            Some((term, node)) => {
                &&& node.0 < n
                &&& c.running(node) is Some
                &&& c.running(node)->Some_0.raft.role == Role::Leader
                &&& c.running(node)->Some_0.raft.term == term
                &&& forall|j: int|
                    0 <= j < n && (#[trigger] c.running(NodeId(j as u32))) is Some && c.running(
                        NodeId(j as u32),
                    )->Some_0.raft.role == Role::Leader ==> c.running(
                        NodeId(j as u32),
                    )->Some_0.raft.term <= term
            },
            None => forall|j: int|
                0 <= j < n ==> !((#[trigger] c.running(NodeId(j as u32))) is Some && c.running(
                    NodeId(j as u32),
                )->Some_0.raft.role == Role::Leader),
        },
    decreases n,
{
    if n > 0 {
        lemma_leading(c, (n - 1) as nat);
    }
}

/// Faults are aimed at whoever leads: a server that is running and believes it
/// leads, in the highest term anyone running leads in; nobody where nobody does.
pub proof fn law_the_leader_leads(c: ClusterView, other: NodeId)
    requires
        other.0 < c.cfg.servers <= u32::MAX,
    ensures
        match c.leader() {
            Some(node) => {
                &&& node.0 < c.cfg.servers && c.world.up[node.0 as int]
                &&& c.servers[node.0 as int] is Some
                &&& c.servers[node.0 as int]->Some_0.raft.role == Role::Leader
                &&& c.world.up[other.0 as int] && c.servers[other.0 as int] is Some
                    && c.servers[other.0 as int]->Some_0.raft.role == Role::Leader
                    ==> c.servers[other.0 as int]->Some_0.raft.term
                    <= c.servers[node.0 as int]->Some_0.raft.term
            },
            None => !(c.world.up[other.0 as int] && c.servers[other.0 as int] is Some
                && c.servers[other.0 as int]->Some_0.raft.role == Role::Leader),
        },
{
    lemma_leading(c, c.cfg.servers as nat);
    let j = other.0 as int;
    assert(NodeId(j as u32) == other);
    assert(c.running(NodeId(j as u32)) == c.running(other));
}

/// Checks are due after every so many events, and never where that is never.
pub proof fn law_checks_are_due(events: u64, every: u64)
    requires
        events > 0,
    ensures
        every == 0 ==> !due(events, every),
        every == 1 ==> due(events, every),
        every > 0 ==> (due(events, every) <==> exists|k: int| events == #[trigger] (k * every)),
{
    if every > 0 {
        if due(events, every) {
            let k = events as int / every as int;
            assert(events == k * every) by (nonlinear_arith)
                requires
                    every > 0,
                    events as int % every as int == 0,
                    k == events as int / every as int,
            ;
        }
        if exists|k: int| events == #[trigger] (k * every) {
            let k = choose|k: int| events == #[trigger] (k * every);
            assert(events as int % every as int == 0) by (nonlinear_arith)
                requires
                    every > 0,
                    events == k * every,
            ;
        }
    }
}

/// What the checks see of a server is what it is; one that is down shows
/// nothing.
pub proof fn law_checks_see_what_is(c: ClusterView, i: int)
    requires
        0 <= i < c.cfg.servers <= u32::MAX,
    ensures
        ({
            let v = c.facts_of(i);
            &&& v.id.0 == i
            &&& v.incarnation == c.world.incarnation[i]
            &&& c.servers[i] is None ==> !v.up
            &&& c.servers[i] is Some ==> {
                let r = c.servers[i]->Some_0.raft;
                &&& v.up == c.world.up[i]
                &&& v.role == r.role && v.term == r.term && v.log == r.log
                &&& v.commit_index == r.commit_index && v.last_applied == r.last_applied
                &&& v.durable_index == r.durable_index()
                &&& v.truncations == r.stats.truncations
            }
        }),
{
}

proof fn lemma_claims(c: ClusterView, n: nat, i: int)
    requires
        0 <= i < n <= c.cfg.servers <= u32::MAX,
        c.running(NodeId(i as u32)) is Some,
        ({
            let r = c.running(NodeId(i as u32))->Some_0.raft;
            some_lost(
                r.log.entries,
                r.durable_index(),
                DurableState::of(c.world.disks[i].file(FILE_WAL).durable).entries,
            )
        }),
    ensures
        found(c.claims_checked(n), "durable_claim_unbacked"@),
    decreases n,
{
    let report = c.claims_checked((n - 1) as nat);
    let node = NodeId((n - 1) as u32);
    if let Some(s) = c.running(node) {
        let file = c.world.disks[n - 1].file(FILE_WAL).durable;
        let out = claim_unbacked(
            c.world.sched.now,
            node,
            s.raft.log.entries,
            s.raft.durable_index(),
            file,
        );
        law_false_claims_are_named(
            c.world.sched.now,
            node,
            s.raft.log.entries,
            s.raft.durable_index(),
            file,
        );
        lemma_reported_one(report, out);
        if i < n - 1 {
            lemma_claims(c, (n - 1) as nat, i);
            assert(found(reported_all(report, out), "durable_claim_unbacked"@));
        }
    } else {
        lemma_claims(c, (n - 1) as nat, i);
    }
}

/// A running server whose disk does not back what it claims to be durable is
/// found out by the sweep over the disks.
pub proof fn law_unbacked_claims_are_found(c: ClusterView, i: int)
    requires
        0 <= i < c.cfg.servers <= u32::MAX,
        c.running(NodeId(i as u32)) is Some,
        ({
            let r = c.running(NodeId(i as u32))->Some_0.raft;
            some_lost(
                r.log.entries,
                r.durable_index(),
                DurableState::of(c.world.disks[i].file(FILE_WAL).durable).entries,
            )
        }),
    ensures
        found(c.check_claims().report, "durable_claim_unbacked"@),
{
    reveal(ClusterView::check_claims);
    lemma_claims(c, c.cfg.servers as nat, i);
}

/// A server that has cut its log into what was committed, once more than was
/// reported, is reported, and then not again for the same cut.
pub proof fn law_committed_cuts_are_found(c: ClusterView, i: int)
    requires
        0 <= i < c.truncated_seen.len(),
        c.servers[i] is Some,
    ensures
        ({
            let d = c.truncations_checked(i);
            let n = c.servers[i]->Some_0.raft.stats.truncated_committed;
            &&& n > c.truncated_seen[i] ==> found(d.report, "truncated_committed"@)
                && d.truncated_seen[i] == n
            &&& n <= c.truncated_seen[i] ==> d == c
            &&& d.truncations_checked(i) == d
        }),
{
    let s = c.servers[i]->Some_0;
    let v = ViolationView {
        kind: "truncated_committed"@,
        time: c.world.sched.now,
        node: Some(NodeId(i as u32)),
        detail:
            "node truncated its log at or below its own commit index                          (commit "@
            + decimal(s.raft.commit_index as nat) + ")"@,
    };
    law_reports_show_what_was_reported(c.report, v);
}

/// The replicas that are compared are the servers that run, each with what it
/// has applied and holds.
pub proof fn law_running_servers_are_compared(c: ClusterView, n: nat, i: int)
    requires
        0 <= i < n <= c.cfg.servers <= u32::MAX,
    ensures
        c.running(NodeId(i as u32)) is Some ==> c.replicas(n).contains(
            ReplicaView {
                id: NodeId(i as u32),
                applied: c.running(NodeId(i as u32))->Some_0.raft.last_applied,
                state: c.running(NodeId(i as u32))->Some_0.sm.state,
            },
        ),
        c.replicas(n).len() <= n,
    decreases n,
{
    let a = c.replicas((n - 1) as nat);
    let b = c.replicas(n);
    if n > 1 {
        law_running_servers_are_compared(
            c,
            (n - 1) as nat,
            if i < n - 1 {
                i
            } else {
                0
            },
        );
    }
    if c.running(NodeId(i as u32)) is Some {
        let x = ReplicaView {
            id: NodeId(i as u32),
            applied: c.running(NodeId(i as u32))->Some_0.raft.last_applied,
            state: c.running(NodeId(i as u32))->Some_0.sm.state,
        };
        if i < n - 1 {
            let k = choose|k: int| 0 <= k < a.len() && a[k] == x;
            assert(b[k] == x);
        } else {
            assert(b[b.len() - 1] == x);
        }
    }
}

/// Everything that was seen committed is looked for on the disks.
pub proof fn law_all_commits_are_looked_for(c: ClusterView, n: nat, index: u64)
    requires
        0 < index <= n <= u64::MAX,
        c.seen.committed.contains_key(index),
    ensures
        exists|k: int|
            0 <= k < c.committed(n).len() && (#[trigger] c.committed(n)[k]).index == index
                && c.committed(n)[k].term == c.seen.committed[index].term && c.committed(n)[k].cmd
                == c.seen.committed[index].cmd,
    decreases n,
{
    let b = c.committed(n);
    if index < n {
        law_all_commits_are_looked_for(c, (n - 1) as nat, index);
        let a = c.committed((n - 1) as nat);
        let k = choose|k: int|
            0 <= k < a.len() && (#[trigger] a[k]).index == index && a[k].term
                == c.seen.committed[index].term && a[k].cmd == c.seen.committed[index].cmd;
        assert(b[k] == a[k]);
    } else {
        let k = b.len() - 1;
        assert(b[k].index == index);
    }
}

// ---- what is counted ---------------------------------------------------------

/// The sum of a list of numbers.
pub open spec fn sum(values: Seq<u64>) -> nat
    decreases values.len(),
{
    if values.len() == 0 {
        0
    } else {
        values[0] as nat + sum(values.drop_first())
    }
}

proof fn lemma_sum_last(values: Seq<u64>)
    requires
        values.len() > 0,
    ensures
        sum(values) == sum(values.drop_last()) + values.last(),
    decreases values.len(),
{
    if values.len() > 1 {
        let d = values.drop_first();
        lemma_sum_last(d);
        assert(d.drop_last() =~= values.drop_last().drop_first());
        assert(values.drop_last()[0] == values[0]);
    } else {
        assert(values.drop_first() =~= Seq::<u64>::empty());
        assert(values.drop_last() =~= Seq::<u64>::empty());
    }
}

/// Totals are sums, as long as there are numbers for them.
pub proof fn law_totals_are_sums(values: Seq<u64>)
    requires
        sum(values) <= u64::MAX,
    ensures
        total(values) == sum(values),
    decreases values.len(),
{
    if values.len() > 0 {
        lemma_sum_last(values);
        law_totals_are_sums(values.drop_last());
    }
}

/// What a run reports of itself: its events and its time, as many operations
/// answered as its history shows, what the network counted, and how far the
/// cluster committed.
pub proof fn law_runs_report_what_they_did(c: ClusterView)
    requires
        c.world.net.stats.dropped_loss + c.world.net.stats.dropped_partition <= u64::MAX,
        c.history.len() <= u64::MAX,
    ensures
        ({
            let s = c.final_stats();
            &&& s.events == c.events
            &&& s.sim_time == c.world.sched.now
            &&& s.ops_completed == answered(c.history)
            &&& s.max_committed == c.seen.max_committed
            &&& s.messages_sent == c.world.net.stats.sent
            &&& s.messages_dropped == c.world.net.stats.dropped_loss
                + c.world.net.stats.dropped_partition
            &&& s.messages_delivered == c.stats.messages_delivered
            &&& s.crashes == c.stats.crashes && s.restarts == c.stats.restarts && s.partitions
                == c.stats.partitions && s.io_failures == c.stats.io_failures
        }),
{
    reveal(ClusterView::final_stats);
    law_completed_operations_are_counted(c.history);
}

/// What servers and clients counted is added up over those there are; a server
/// that is down counts for nothing.
pub proof fn law_counts_are_added_up(c: ClusterView)
    requires
        sum(c.clients.map_values(|x: ClientView| x.stats.started)) <= u64::MAX,
        sum(c.clients.map_values(|x: ClientView| x.stats.abandoned)) <= u64::MAX,
        sum(c.clients.map_values(|x: ClientView| x.stats.retries)) <= u64::MAX,
    ensures
        c.final_stats().ops_started == sum(c.clients.map_values(|x: ClientView| x.stats.started)),
        c.final_stats().ops_abandoned == sum(c.clients.map_values(|x: ClientView| x.stats.abandoned)),
        c.final_stats().retries == sum(c.clients.map_values(|x: ClientView| x.stats.retries)),
        forall|f: spec_fn(ServerView) -> u64| #[trigger] counted(None, f) == 0,
{
    reveal(ClusterView::final_stats);
    law_totals_are_sums(c.clients.map_values(|x: ClientView| x.stats.started));
    law_totals_are_sums(c.clients.map_values(|x: ClientView| x.stats.abandoned));
    law_totals_are_sums(c.clients.map_values(|x: ClientView| x.stats.retries));
}

/// A cluster starts as it was configured: a client on every node behind the
/// servers, each with a name of its own and every server to talk to; nothing has
/// happened yet.
pub proof fn law_clusters_start_as_configured(cfg: SimConfig, i: int)
    requires
        cfg.runnable(),
        0 <= i < cfg.clients,
    ensures
        ({
            let c = ClusterView::made(cfg);
            &&& c.clients.len() == cfg.clients
            &&& c.clients[i].id == i
            &&& c.clients[i].node.0 == cfg.servers + i
            &&& c.clients[i].servers == first_nodes(cfg.servers as nat)
            &&& c.clients[i].cfg == cfg.workload
            &&& c.clients[i].target < cfg.servers
            &&& c.history.len() == 0 && c.report.len() == 0 && c.events == 0
            &&& !c.finished && !c.incomplete && c.recovered_at is None
            &&& forall|j: int|
                0 <= j < cfg.servers ==> (#[trigger] first_nodes(cfg.servers as nat)[j]).0 == j
        }),
{
    let m = client_made(cfg, i);
    law_below_in_range(
        Rng::seeded(cfg.seed ^ CLIENT_SEED ^ (i as u64)),
        cfg.servers as u64,
    );
}

/// A server counts as holding unsynced writes exactly while its file does.
pub proof fn law_unsynced_servers_are_known(c: ClusterView, i: int)
    requires
        0 <= i < c.cfg.servers,
    ensures
        c.unsynced().len() == c.cfg.servers,
        c.unsynced()[i] <==> c.world.disks[i].file(FILE_WAL).pending.len() != 0,
{
}

// ---- events --------------------------------------------------------------------

/// An event reaches the node it is for and no other: a running server is handed
/// its timers, and its completions with whether they succeeded; a client its
/// timers; and a server that is down hears of neither.
pub proof fn law_events_reach_their_node(
    c: ClusterView,
    node: NodeId,
    timer: u64,
    op: u64,
    result: IoResult,
    now: Nanos,
)
    requires
        c.wf(),
        c.world.has(node),
    ensures
        ({
            let i = node.0 as int;
            let io = sim_state(c.world, node);
            let (a, b) = (c.on_timer(node, timer, now), c.on_storage(node, op, result));
            let runs = node.0 < c.cfg.servers && c.world.up[i] && c.servers[i] is Some;
            &&& runs ==> a.servers[i] == Some(c.servers[i]->Some_0.on_timer(io, timer).server)
            &&& runs ==> b.servers[i] == Some(
                c.servers[i]->Some_0.on_storage(io, op, result == IoResult::Done).server,
            )
            &&& node.0 < c.cfg.servers && !runs ==> a == c && b == c
            &&& node.0 >= c.cfg.servers ==> b == c && a.servers == c.servers && a.clients[i
                - c.cfg.servers] == c.clients[i - c.cfg.servers].on_timer(
                io,
                c.history,
                now,
                timer,
            ).client && a.history == c.clients[i - c.cfg.servers].on_timer(
                io,
                c.history,
                now,
                timer,
            ).history
            &&& forall|j: int|
                0 <= j < c.cfg.servers && j != i ==> #[trigger] a.servers[j] == c.servers[j]
                    && b.servers[j] == c.servers[j]
            &&& forall|j: int|
                0 <= j < c.cfg.clients && j != i - c.cfg.servers ==> #[trigger] a.clients[j]
                    == c.clients[j]
        }),
{
    reveal(ClusterView::on_timer);
    reveal(ClusterView::on_storage);
}

/// A message that gets through is handed to its receiver as it arrived, and to a
/// server with who sent it.
pub proof fn law_messages_reach_their_receiver(
    c: ClusterView,
    from: NodeId,
    to: NodeId,
    payload: Seq<u8>,
    now: Nanos,
)
    requires
        c.wf(),
        c.world.has(to),
    ensures
        ({
            let i = to.0 as int;
            let io = sim_state(c.world, to);
            let d = c.delivered(from, to, payload, now);
            &&& to.0 < c.cfg.servers && c.servers[i] is Some ==> d.servers[i] == Some(
                c.servers[i]->Some_0.on_bytes(io, from, payload).server,
            )
            &&& to.0 >= c.cfg.servers ==> d.servers == c.servers && d.clients[i - c.cfg.servers]
                == c.clients[i - c.cfg.servers].on_bytes(io, c.history, now, payload).client
                && d.history == c.clients[i - c.cfg.servers].on_bytes(
                io,
                c.history,
                now,
                payload,
            ).history
            &&& forall|j: int|
                0 <= j < c.cfg.servers && j != i ==> #[trigger] d.servers[j] == c.servers[j]
        }),
{
    reveal(ClusterView::delivered);
}

/// Each kind of event is dealt with as what it is.
pub proof fn law_events_are_told_apart(c: ClusterView, f: FiredView)
    ensures
        match f.event {
            EventView::Timer { node, timer } => c.dispatch(f) == c.on_timer(node, timer, f.time),
            EventView::Deliver { from, to, payload, msg } => c.dispatch(f) == c.on_deliver(
                from,
                to,
                payload,
                f.time,
            ),
            EventView::Storage { node, op, result } => c.dispatch(f) == c.on_storage(
                node,
                op,
                result,
            ),
            EventView::Fault(action) => c.dispatch(f) == c.struck(action, f.time),
            EventView::App { tag, arg } => c.dispatch(f) == c.on_app(tag, arg, f.time),
        },
{
    reveal(ClusterView::dispatch);
}

/// A server that starts, at first or again, is the one of its node, in a cluster
/// of all the servers there are, configured as the run says.
pub proof fn law_servers_start_as_configured(cfg: SimConfig, n: nat, i: int)
    requires
        0 <= i < n <= cfg.servers <= u32::MAX,
    ensures
        ({
            let s = booted(cfg, n).1;
            &&& s.len() == n
            &&& s[i] is Some
            &&& s[i]->Some_0.raft.id.0 == i
            &&& s[i]->Some_0.raft.members == first_nodes(cfg.servers as nat)
            &&& s[i]->Some_0.raft.cfg == cfg.raft
            &&& s[i]->Some_0.raft.role == Role::Follower
            &&& s[i]->Some_0.waiting.len() == 0
        }),
    decreases n,
{
    reveal(ServerView::recover);
    lemma_booted_len(cfg, n);
    lemma_booted_len(cfg, (n - 1) as nat);
    if i < n - 1 {
        law_servers_start_as_configured(cfg, (n - 1) as nat, i);
    }
}

proof fn lemma_booted_len(cfg: SimConfig, n: nat)
    ensures
        booted(cfg, n).1.len() == n,
    decreases n,
{
    if n > 0 {
        lemma_booted_len(cfg, (n - 1) as nat);
    }
}

/// A server that comes back is the one of its node again, among the same members.
pub proof fn law_servers_come_back_as_they_were(c: ClusterView, node: NodeId, now: Nanos)
    requires
        c.wf(),
        node.0 < c.cfg.servers,
        !c.world.up[node.0 as int],
    ensures
        ({
            let s = c.restart(node, now).servers[node.0 as int];
            &&& s is Some
            &&& s->Some_0.raft.id == node
            &&& s->Some_0.raft.members == c.members
            &&& s->Some_0.raft.cfg == c.cfg.raft
            &&& s->Some_0.raft.role == Role::Follower
        }),
{
    reveal(ClusterView::restart);
    reveal(ServerView::recover);
}

/// The nodes that are up are counted one by one.
pub proof fn law_nodes_up_are_counted(flags: Seq<bool>)
    ensures
        count_set(flags, flags.len() as int) == flags.filter(|b: bool| b).len(),
{
    lemma_count_set(flags, flags.len() as int);
    assert(flags.take(flags.len() as int) =~= flags);
}

proof fn lemma_count_set(flags: Seq<bool>, n: int)
    requires
        0 <= n <= flags.len(),
    ensures
        count_set(flags, n) == flags.take(n).filter(|b: bool| b).len(),
    decreases n,
{
    reveal(Seq::filter);
    if n > 0 {
        lemma_count_set(flags, n - 1);
        assert(flags.take(n).drop_last() =~= flags.take(n - 1));
    }
}

// ---- seeds ---------------------------------------------------------------------

/// Multiplying by an odd constant can be undone.
proof fn lemma_undone(x: u64, c: u64, inverse: int, k: int)
    requires
        c * inverse == 1 + k * 0x1_0000_0000_0000_0000,
    ensures
        (x.wrapping_mul(c) * inverse) % 0x1_0000_0000_0000_0000 == x,
{
    let w = 0x1_0000_0000_0000_0000int;
    let p = (x * c) % w;
    let q = (x * c) / w;
    assert(x.wrapping_mul(c) == p);
    lemma_fundamental_div_mod(x * c, w);
    assert(p * inverse == w * (x * k - q * inverse) + x) by (nonlinear_arith)
        requires
            x * c == w * q + p,
            c * inverse == 1 + k * w,
    ;
    lemma_mod_multiples_vanish(x * k - q * inverse, x as int, w);
    lemma_small_mod(x as nat, w as nat);
}

/// A node that restarts draws other numbers than before, and no two nodes draw
/// the same: their seeds differ.
pub proof fn law_seeds_differ(seed: u64, a: NodeId, b: NodeId, i: u64, j: u64)
    ensures
        i != j ==> seed_of(seed, a, i) != seed_of(seed, a, j),
        a != b ==> seed_of(seed, a, i) != seed_of(seed, b, i),
{
    let (p, q) = (
        (a.0 as u64).wrapping_mul(0x9E37_79B9_7F4A_7C15),
        (b.0 as u64).wrapping_mul(0x9E37_79B9_7F4A_7C15),
    );
    let (x, y) = (i.wrapping_mul(0xD6E8_FEB8_6659_FD93), j.wrapping_mul(0xD6E8_FEB8_6659_FD93));
    lemma_undone(a.0 as u64, 0x9E37_79B9_7F4A_7C15, 17428512612931826493, 10771413168148108919);
    lemma_undone(b.0 as u64, 0x9E37_79B9_7F4A_7C15, 17428512612931826493, 10771413168148108919);
    lemma_undone(i, 0xD6E8_FEB8_6659_FD93, 14982988110149298331, 12578109465933073204);
    lemma_undone(j, 0xD6E8_FEB8_6659_FD93, 14982988110149298331, 12578109465933073204);
    assert(seed ^ p ^ x == seed ^ p ^ y ==> x == y) by (bit_vector);
    assert(seed ^ p ^ x == seed ^ q ^ x ==> p == q) by (bit_vector);
}

} // verus!
