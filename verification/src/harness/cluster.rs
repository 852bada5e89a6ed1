//! The driver: one simulated run from bootstrap to verdict.
//!
//! This is the only place that sees everything -- the world, the servers, the
//! clients and the checkers -- and it is careful about what it lets through.
//! Servers are handed a [`SimIo`] bound to their own node and nothing else, so
//! they cannot consult the oracle they are being judged by.
//!
//! A run has three phases:
//!
//! 1. **Chaos.** Faults are injected inside the configured window: crashes,
//!    partitions, clock jumps, slow links, disk errors.
//! 2. **Quiesce.** Everything heals, every node comes back, and the clients keep
//!    working. A correct cluster must elect a leader and start answering again.
//!    Without this phase, "the cluster is wedged" and "the cluster is fine but
//!    busy" would look identical.
//! 3. **Drain.** Clients stop, in-flight work finishes, and the final checks
//!    run against a settled system.

use crate::checker::durability::{
    check_committed_durable, check_convergence, check_durable_claim, check_recovery, check_term_durable,
    committed_views, diverged, durable_states, not_durable, replica_views, CommittedEntry, CommittedView, DiskView,
    ReplicaView,
};
use crate::checker::invariants::{facts, Invariants, NodeView};
use crate::checker::linearizability::{Checker, History, Verdict};
use crate::checker::report::{violation_views, Report, Violation};
use crate::count::{add_capped, bump, count_up, plus};
use crate::figures::{put_tenths, share_of};
use crate::harness::cluster_model::{
    booted, client_made, client_total, counted, due, first_nodes, placed, run_of, seconds_text, seed_of,
    server_total, total, ClusterView, APP_FAULT_TICK, APP_HEAL, APP_RESTART, APP_STOP, APP_STOP_CLIENTS, CLIENT_SEED,
    STAGGER,
};
use crate::harness::config::SimConfig;
use crate::harness::outcome::{RunOutcome, RunStats};
use crate::harness::workload::{Client, ClientView, TIMER_THINK};
use crate::kvstore::log::{copy_entries, entry_views, Entry, EntryView, LogView, RaftLog};
use crate::kvstore::raft_model::Role;
use crate::kvstore::server::{KvServer, ServerView};
use crate::kvstore::table::KeyTable;
use crate::kvstore::wire::Message;
use crate::sim_io::storage::FILE_WAL;
use crate::sim_io::{lemma_enact_all_shape, sim_state, SimIo};
use crate::simcore::disk::{IoResult, OpId};
use crate::simcore::faults::{group_views, FaultAction, FaultHint};
use crate::simcore::scheduler::{Event, EventView, Fired};
use crate::simcore::trace::Level;
use crate::simcore::world::{World, WorldConfig, WorldView};
use crate::simcore::{Nanos, NodeId, SECONDS};
use crate::text::{own, put_num};
use std::collections::BTreeMap;
use vstd::prelude::*;
use vstd::slice::slice_subrange;

verus! {

/// The views of a list of servers.
pub open spec fn server_views(ss: Seq<Option<KvServer>>) -> Seq<Option<ServerView>> {
    ss.map_values(
        |s: Option<KvServer>|
            match s {
                Some(k) => Some(k@),
                None => None,
            },
    )
}

/// The views of a list of clients.
pub open spec fn client_views(cs: Seq<Client>) -> Seq<ClientView> {
    cs.map_values(|c: Client| c@)
}

/// What is kept of each node from before it crashed.
pub open spec fn crash_views(m: Map<u32, (Vec<Entry>, u64)>) -> Map<u32, (Seq<EntryView>, u64)> {
    m.map_values(|v: (Vec<Entry>, u64)| (entry_views(v.0@), v.1))
}

pub struct Cluster {
    io: SimIo,
    servers: Vec<Option<KvServer>>,
    clients: Vec<Client>,
    members: Vec<NodeId>,
    cfg: SimConfig,
    history: History,
    invariants: Invariants,
    report: Report,
    /// Each node's log immediately before it crashed, so recovery can be
    /// checked for having brought back what was synced.
    pre_crash_log: BTreeMap<u32, (Vec<Entry>, u64)>,
    /// Highest term each node has been seen to send a message in.
    acted_term: BTreeMap<u32, u64>,
    /// Stand-in log for a node that is currently down.
    empty_log: RaftLog,
    /// Per-node count of committed-entry truncations already reported.
    truncated_committed_seen: Vec<u64>,
    events: u64,
    incomplete: bool,
    finished: bool,
    recovered_at: Option<Nanos>,
    completed_at_recovery: usize,
    stats: RunStats,
}

impl View for Cluster {
    type V = ClusterView;

    closed spec fn view(&self) -> ClusterView {
        ClusterView {
            world: self.io.world@,
            servers: server_views(self.servers@),
            clients: client_views(self.clients@),
            members: self.members@,
            cfg: self.cfg,
            history: self.history@,
            seen: self.invariants@,
            report: self.report@,
            pre_crash: crash_views(self.pre_crash_log@),
            acted: self.acted_term@,
            truncated_seen: self.truncated_committed_seen@,
            events: self.events,
            incomplete: self.incomplete,
            finished: self.finished,
            recovered_at: self.recovered_at,
            completed_at_recovery: self.completed_at_recovery as int,
            stats: self.stats,
        }
    }
}

/// A node's private random stream. Mixing in the incarnation stops a restarted
/// node from replaying the same election timeouts it used before it crashed,
/// which would make two nodes livelock in lockstep.
pub fn node_seed(seed: u64, node: NodeId, incarnation: u64) -> (r: u64)
    ensures
        r == seed_of(seed, node, incarnation),
{
    seed ^ (node.0 as u64).wrapping_mul(0x9E37_79B9_7F4A_7C15) ^ incarnation.wrapping_mul(
        0xD6E8_FEB8_6659_FD93,
    )
}

fn copy_nodes(nodes: &Vec<NodeId>) -> (r: Vec<NodeId>)
    ensures
        r@ == nodes@,
{
    let mut out: Vec<NodeId> = Vec::new();
    let mut i: usize = 0;
    while i < nodes.len()
        invariant
            i <= nodes@.len(),
            out@ == nodes@.take(i as int),
        decreases nodes@.len() - i,
    {
        out.push(nodes[i]);
        i += 1;
        assert(out@ =~= nodes@.take(i as int));
    }
    assert(nodes@.take(i as int) =~= nodes@);
    out
}

impl Cluster {
    /// Every node of the configuration is there, and each is in order.
    pub closed spec fn wf(&self) -> bool {
        &&& self@.wf()
        &&& self.history.wf()
        &&& self.empty_log@ == LogView::empty()
        &&& forall|i: int|
            0 <= i < self.servers@.len() && (#[trigger] self.servers@[i]) is Some
                ==> self.servers@[i]->Some_0.wf()
        &&& forall|i: int| 0 <= i < self.clients@.len() ==> (#[trigger] self.clients@[i]).wf()
    }

    fn is_client(&self, node: NodeId) -> (r: bool)
        ensures
            r == self@.is_client(node),
    {
        node.idx() >= self.cfg.servers
    }

    pub fn new(cfg: SimConfig) -> (r: Cluster)
        requires
            cfg.runnable(),
        ensures
            r.wf(),
            r@ == ClusterView::made(cfg),
            r@.world.sched.now == 0,
    {
        let n: usize = cfg.servers;
        let m: usize = cfg.clients;
        let mut members: Vec<NodeId> = Vec::new();
        let mut i: usize = 0;
        while i < n
            invariant
                i <= n <= u32::MAX,
                members@ == first_nodes(i as nat),
            decreases n - i,
        {
            members.push(NodeId(i as u32));
            i += 1;
            assert(members@ =~= first_nodes(i as nat));
        }
        let world = World::new(
            WorldConfig {
                nodes: n + m,
                seed: cfg.seed,
                net: cfg.net,
                disk: cfg.disk,
                faults: cfg.faults,
                trace_level: cfg.trace_level,
            },
        );
        let mut io = SimIo::unbound(world);
        let mut servers: Vec<Option<KvServer>> = Vec::new();
        assert(server_views(servers@) =~= Seq::empty());
        i = 0;
        while i < n
            invariant
                i <= n == cfg.servers,
                cfg.runnable(),
                members@ == first_nodes(n as nat),
                io.world@.wf(),
                io.world@.nodes() == cfg.servers + cfg.clients,
                io.world@.sched.now == 0,
                (io.world@, server_views(servers@)) == booted(cfg, i as nat),
                servers@.len() == i,
                forall|j: int|
                    0 <= j < i ==> (#[trigger] servers@[j]) is Some && servers@[j]->Some_0.wf(),
            decreases n - i,
        {
            let node = NodeId(i as u32);
            let seed: u64 = node_seed(cfg.seed, node, 0);
            let ghost (w, before) = (io.world@, server_views(servers@));
            io.rebind(node);
            assert(members@[i as int] == node);
            let s = KvServer::recover(&mut io, node, copy_nodes(&members), cfg.raft, seed);
            let ghost view = s@;
            proof {
                lemma_enact_all_shape(w, node, io.log@);
            }
            servers.push(Some(s));
            assert(server_views(servers@) =~= before.push(Some(view)));
            i += 1;
        }
        let mut clients: Vec<Client> = Vec::new();
        i = 0;
        while i < m
            invariant
                i <= m == cfg.clients,
                n == cfg.servers,
                cfg.runnable(),
                members@ == first_nodes(n as nat),
                clients@.len() == i,
                forall|j: int|
                    0 <= j < i ==> (#[trigger] clients@[j])@ == client_made(cfg, j)
                        && clients@[j].wf(),
            decreases m - i,
        {
            clients.push(
                Client::new(
                    i as u32,
                    NodeId((n + i) as u32),
                    copy_nodes(&members),
                    cfg.seed ^ CLIENT_SEED ^ i as u64,
                    cfg.workload,
                ),
            );
            i += 1;
        }
        let mut truncated_committed_seen: Vec<u64> = Vec::new();
        i = 0;
        while i < n
            invariant
                i <= n,
                truncated_committed_seen@ == Seq::new(i as nat, |j: int| 0u64),
            decreases n - i,
        {
            truncated_committed_seen.push(0);
            i += 1;
            assert(truncated_committed_seen@ =~= Seq::new(i as nat, |j: int| 0u64));
        }
        let r = Cluster {
            io,
            servers,
            clients,
            members,
            cfg,
            history: History::new(),
            invariants: Invariants::new(),
            report: Report::new(),
            pre_crash_log: BTreeMap::new(),
            acted_term: BTreeMap::new(),
            empty_log: RaftLog::new(),
            truncated_committed_seen,
            events: 0,
            incomplete: false,
            finished: false,
            recovered_at: None,
            completed_at_recovery: 0,
            stats: RunStats::default(),
        };
        assert(r@ =~= ClusterView::made(cfg)) by {
            assert(r@.pre_crash =~= Map::empty());
            assert(r@.clients =~= ClusterView::made(cfg).clients);
        }
        r
    }

    /// A client deals with a timer.
    fn client_timer(&mut self, node: NodeId, timer: u64, now: Nanos)
        requires
            old(self).wf(),
            old(self)@.world.has(node),
            old(self)@.is_client(node),
        ensures
            final(self).wf(),
            final(self)@ == old(self)@.acted_on(
                node,
                old(self)@.clients[node.0 - old(self)@.cfg.servers].on_timer(
                    sim_state(old(self)@.world, node),
                    old(self)@.history,
                    now,
                    timer,
                ),
            ),
    {
        let k: usize = node.idx() - self.cfg.servers;
        let ghost before = self@;
        assert(before.clients[k as int] == self.clients@[k as int]@);
        self.io.rebind(node);
        self.clients[k].on_timer(&mut self.io, &mut self.history, now, timer);
        proof {
            lemma_enact_all_shape(before.world, node, self.io.log@);
            let c = self.clients@[k as int]@;
            assert(client_views(self.clients@) =~= before.clients.update(k as int, c));
        }
    }

    /// A server deals with a timer.
    fn server_timer(&mut self, node: NodeId, timer: u64)
        requires
            old(self).wf(),
            node.0 < old(self)@.cfg.servers,
        ensures
            final(self).wf(),
            final(self)@ == (match old(self)@.servers[node.0 as int] {
                Some(s) => old(self)@.served(
                    node,
                    s.on_timer(sim_state(old(self)@.world, node), timer),
                ),
                None => old(self)@,
            }),
    {
        let i: usize = node.idx();
        let ghost before = self@;
        assert(before.servers[i as int] == match self.servers@[i as int] {
            Some(k) => Some(k@),
            None => None,
        });
        self.io.rebind(node);
        let ghost mut now_serves: Option<ServerView> = None;
        if let Some(server) = &mut self.servers[i] {
            server.on_timer(&mut self.io, timer);
            proof {
                now_serves = Some(server@);
                lemma_enact_all_shape(before.world, node, self.io.log@);
            }
        }
        assert(server_views(self.servers@) =~= before.servers.update(i as int, now_serves));
        assert(before.servers.update(i as int, before.servers[i as int]) =~= before.servers);
    }

    fn on_timer(&mut self, node: NodeId, timer: u64, now: Nanos)
        requires
            old(self).wf(),
        ensures
            final(self).wf(),
            final(self)@ == old(self)@.on_timer(node, timer, now),
    {
        proof {
            reveal(ClusterView::on_timer);
        }
        if node.idx() >= self.io.world.nodes() {
            return;
        }
        if self.is_client(node) {
            self.client_timer(node, timer, now);
        } else if self.io.world.is_up(node) {
            self.server_timer(node, timer);
        }
    }

    fn on_storage(&mut self, node: NodeId, op: OpId, result: IoResult)
        requires
            old(self).wf(),
        ensures
            final(self).wf(),
            final(self)@ == old(self)@.on_storage(node, op, result),
    {
        proof {
            reveal(ClusterView::on_storage);
        }
        let i: usize = node.idx();
        if i >= self.cfg.servers || !self.io.world.is_up(node) {
            return;
        }
        let ghost before = self@;
        assert(before.servers[i as int] == match self.servers@[i as int] {
            Some(k) => Some(k@),
            None => None,
        });
        self.io.rebind(node);
        let ok = result == IoResult::Done;
        let ghost mut now_serves: Option<ServerView> = None;
        if let Some(server) = &mut self.servers[i] {
            server.on_storage(&mut self.io, op, ok);
            proof {
                now_serves = Some(server@);
                lemma_enact_all_shape(before.world, node, self.io.log@);
            }
        }
        assert(server_views(self.servers@) =~= before.servers.update(i as int, now_serves));
        assert(before.servers.update(i as int, before.servers[i as int]) =~= before.servers);
    }

    /// A message that was sent is evidence about its sender regardless of
    /// whether it is allowed to arrive.
    fn note(&mut self, from: NodeId, payload: &[u8])
        requires
            old(self).wf(),
        ensures
            final(self).wf(),
            final(self)@ == old(self)@.noted(from, payload@),
    {
        proof {
            reveal(ClusterView::noted);
        }
        if self.is_client(from) {
            return;
        }
        if let Ok(Message::Raft(m)) = Message::decode(payload) {
            let term: u64 = m.term();
            self.invariants.note_sent(from, term);
            let was: u64 = match self.acted_term.get(&from.0) {
                Some(t) => *t,
                None => 0,
            };
            let most: u64 = if term > was {
                term
            } else {
                was
            };
            self.acted_term.insert(from.0, most);
        }
    }

    /// A client receives bytes.
    fn client_bytes(&mut self, to: NodeId, payload: &[u8], now: Nanos)
        requires
            old(self).wf(),
            old(self)@.world.has(to),
            old(self)@.is_client(to),
        ensures
            final(self).wf(),
            final(self)@ == old(self)@.acted_on(
                to,
                old(self)@.clients[to.0 - old(self)@.cfg.servers].on_bytes(
                    sim_state(old(self)@.world, to),
                    old(self)@.history,
                    now,
                    payload@,
                ),
            ),
    {
        let k: usize = to.idx() - self.cfg.servers;
        let ghost before = self@;
        assert(before.clients[k as int] == self.clients@[k as int]@);
        self.io.rebind(to);
        self.clients[k].on_bytes(&mut self.io, &mut self.history, now, payload);
        proof {
            lemma_enact_all_shape(before.world, to, self.io.log@);
            let c = self.clients@[k as int]@;
            assert(client_views(self.clients@) =~= before.clients.update(k as int, c));
        }
    }

    /// A server receives bytes.
    fn server_bytes(&mut self, from: NodeId, to: NodeId, payload: &[u8])
        requires
            old(self).wf(),
            to.0 < old(self)@.cfg.servers,
        ensures
            final(self).wf(),
            final(self)@ == (match old(self)@.servers[to.0 as int] {
                Some(s) => old(self)@.served(
                    to,
                    s.on_bytes(sim_state(old(self)@.world, to), from, payload@),
                ),
                None => old(self)@,
            }),
    {
        let i: usize = to.idx();
        let ghost before = self@;
        assert(before.servers[i as int] == match self.servers@[i as int] {
            Some(k) => Some(k@),
            None => None,
        });
        self.io.rebind(to);
        let ghost mut now_serves: Option<ServerView> = None;
        if let Some(server) = &mut self.servers[i] {
            server.on_bytes(&mut self.io, from, payload);
            proof {
                now_serves = Some(server@);
                lemma_enact_all_shape(before.world, to, self.io.log@);
            }
        }
        assert(server_views(self.servers@) =~= before.servers.update(i as int, now_serves));
        assert(before.servers.update(i as int, before.servers[i as int]) =~= before.servers);
    }

    fn deliver(&mut self, from: NodeId, to: NodeId, payload: &[u8], now: Nanos)
        requires
            old(self).wf(),
            old(self)@.world.has(to),
        ensures
            final(self).wf(),
            final(self)@ == old(self)@.delivered(from, to, payload@, now),
    {
        proof {
            reveal(ClusterView::delivered);
        }
        self.stats.messages_delivered = count_up(self.stats.messages_delivered);
        if self.is_client(to) {
            self.client_bytes(to, payload, now);
        } else {
            self.server_bytes(from, to, payload);
        }
    }

    fn on_deliver(&mut self, from: NodeId, to: NodeId, payload: &[u8], now: Nanos)
        requires
            old(self).wf(),
        ensures
            final(self).wf(),
            final(self)@ == old(self)@.on_deliver(from, to, payload@, now),
    {
        proof {
            reveal(ClusterView::on_deliver);
        }
        self.note(from, payload);
        if to.idx() >= self.io.world.nodes() {
            return;
        }
        let ghost before = self@;
        let ok = self.io.world.accept_delivery(from, to);
        proof {
            reveal(WorldView::accept_delivery);
            assert(self@ =~= (ClusterView {
                world: before.world.accept_delivery(from, to).0,
                ..before
            }));
        }
        if ok {
            self.deliver(from, to, payload, now);
        }
    }

    /// Whoever currently believes they are leading, at the highest term seen.
    ///
    /// A best-effort view for aiming faults, not an oracle: during an election
    /// there may be nobody, and a partitioned-away old leader still counts
    /// itself as one. Both are fine -- hitting a stale leader is a useful fault
    /// too.
    fn current_leader(&self) -> (r: Option<NodeId>)
        requires
            self.wf(),
        ensures
            r == self@.leader(),
    {
        let mut best: Option<(u64, NodeId)> = None;
        let n: usize = self.cfg.servers;
        let mut i: usize = 0;
        while i < n
            invariant
                i <= n == self.cfg.servers,
                self.wf(),
                best == self@.leading(i as nat),
            decreases n - i,
        {
            let id = NodeId(i as u32);
            if self.io.world.is_up(id) {
                if let Some(s) = &self.servers[i] {
                    assert(self@.servers[i as int] == Some(s@));
                    let better = match best {
                        Some((t, _)) => s.raft.term() > t,
                        None => true,
                    };
                    if s.raft.is_leader() && better {
                        best = Some((s.raft.term(), id));
                    }
                } else {
                    assert(self@.servers[i as int] is None);
                }
            }
            i += 1;
        }
        match best {
            Some((_, id)) => Some(id),
            None => None,
        }
    }

    /// Which servers hold writes they have not synced.
    fn unsynced(&self) -> (r: Vec<bool>)
        requires
            self.wf(),
        ensures
            r@ == self@.unsynced(),
    {
        let mut flags: Vec<bool> = Vec::new();
        let n: usize = self.cfg.servers;
        let mut i: usize = 0;
        while i < n
            invariant
                i <= n == self.cfg.servers,
                self.wf(),
                flags@ == self@.unsynced().take(i as int),
            decreases n - i,
        {
            flags.push(self.io.world.has_unsynced(NodeId(i as u32), FILE_WAL));
            i += 1;
            assert(flags@ =~= self@.unsynced().take(i as int));
        }
        assert(self@.unsynced().take(n as int) =~= self@.unsynced());
        flags
    }

    fn schedule_heal(&mut self)
        requires
            old(self).wf(),
        ensures
            final(self).wf(),
            final(self)@ == old(self)@.heal_later(),
    {
        proof {
            reveal(ClusterView::heal_later);
        }
        let d: u64 = self.io.world.faults.partition_duration(&mut self.io.world.rng);
        self.io.world.sched.after(d, Event::App { tag: APP_HEAL, arg: 0 });
        assert(self@ =~= old(self)@.heal_later());
    }

    fn heal_all(&mut self)
        requires
            old(self).wf(),
        ensures
            final(self).wf(),
            final(self)@ == old(self)@.healed(),
    {
        self.io.world.net.heal_all();
        assert(self@ =~= old(self)@.healed());
    }

    fn crash(&mut self, node: NodeId)
        requires
            old(self).wf(),
        ensures
            final(self).wf(),
            final(self)@ == old(self)@.crash(node),
    {
        proof {
            reveal(ClusterView::crash);
        }
        let i: usize = node.idx();
        if i >= self.cfg.servers || !self.io.world.is_up(node) {
            return;
        }
        let ghost before = self@;
        assert(before.servers[i as int] == match self.servers@[i as int] {
            Some(k) => Some(k@),
            None => None,
        });
        if let Some(server) = &self.servers[i] {
            // Remember both the log and how much of it the node believed was
            // synced: that is the part recovery is obliged to bring back.
            let es = server.raft.log().entries();
            let kept = copy_entries(es, 0, es.len());
            let durable: u64 = server.raft.durable_index();
            let ghost was = self.pre_crash_log@;
            assert(entry_views(kept@) =~= server@.raft.log.entries);
            self.pre_crash_log.insert(node.0, (kept, durable));
            assert(crash_views(self.pre_crash_log@) =~= crash_views(was).insert(
                node.0,
                (server@.raft.log.entries, durable),
            ));
        }
        self.servers[i] = None;
        self.io.world.crash_node(node);
        proof {
            reveal(WorldView::crash_node);
            reveal(WorldView::observe);
            assert(server_views(self.servers@) =~= before.servers.update(i as int, None));
            assert(self@ =~= before.crash(node));
        }
    }

    fn restart(&mut self, node: NodeId, now: Nanos)
        requires
            old(self).wf(),
        ensures
            final(self).wf(),
            final(self)@ == old(self)@.restart(node, now),
    {
        proof {
            reveal(ClusterView::restart);
        }
        let i: usize = node.idx();
        if i >= self.cfg.servers || self.io.world.is_up(node) {
            return;
        }
        let ghost before = self@;
        self.io.world.restart_node(node);
        proof {
            reveal(WorldView::restart_node);
            reveal(WorldView::observe);
        }
        let ghost w = self.io.world@;
        let seed: u64 = node_seed(self.cfg.seed, node, self.io.world.incarnation(node));
        let members = copy_nodes(&self.members);
        assert(members@[i as int] == node);
        self.io.rebind(node);
        let server = KvServer::recover(&mut self.io, node, members, self.cfg.raft, seed);
        proof {
            lemma_enact_all_shape(w, node, self.io.log@);
        }
        // Everything this node had synced must have come back unchanged.
        if let Some(kept) = self.pre_crash_log.get(&node.0) {
            let after = server.raft.log().entries();
            let found = check_recovery(now, node, kept.0.as_slice(), kept.1, after);
            self.report.extend(found);
        }
        // And the disk must not have forgotten a term this node acted on.
        if let Some(acted) = self.acted_term.get(&node.0) {
            let disk = DiskView { id: node, bytes: self.io.world.durable_image(node, FILE_WAL) };
            let found = check_term_durable(now, node, *acted, &disk);
            self.report.extend(found);
        }
        let ghost view = server@;
        self.servers[i] = Some(server);
        self.stats.restarts = count_up(self.stats.restarts);
        proof {
            assert(server_views(self.servers@) =~= before.servers.update(i as int, Some(view)));
            assert(self@ =~= before.restart(node, now));
        }
    }

    /// Clients are placed on one side or the other, so a client can find itself
    /// talking to a minority that cannot commit.
    fn partition(&mut self, mut groups: Vec<Vec<NodeId>>)
        requires
            old(self).wf(),
        ensures
            final(self).wf(),
            final(self)@ == old(self)@.cut(group_views(groups@)),
    {
        proof {
            reveal(ClusterView::cut);
        }
        let ghost (before, start) = (self@, group_views(groups@));
        let m: usize = self.clients.len();
        let n: usize = groups.len();
        let mut k: usize = 0;
        while k < m && n > 0
            invariant
                k <= m == self.clients@.len(),
                n == groups@.len() == start.len(),
                n == 0 ==> k == 0,
                self.wf(),
                self@ == (ClusterView {
                    world: WorldView { rng: self@.world.rng, ..before.world },
                    ..before
                }),
                (group_views(groups@), self@.world.rng) == placed(
                    start,
                    before.world.rng,
                    before.clients,
                    k as nat,
                ),
            decreases m - k,
        {
            let ghost (c, gs) = (self@, group_views(groups@));
            let g: usize = self.io.world.rng.below(n as u64) as usize;
            let node = self.clients[k].node();
            assert(before.clients[k as int] == self.clients@[k as int]@);
            assert(gs[g as int] == groups@[g as int]@);
            groups[g].push(node);
            assert(group_views(groups@) =~= gs.update(g as int, gs[g as int].push(node)));
            assert(self@ =~= (ClusterView {
                world: WorldView { rng: self@.world.rng, ..before.world },
                ..before
            }));
            k += 1;
        }
        self.heal_all();
        let ghost c = self@;
        self.io.world.net.partition(groups.as_slice());
        self.stats.partitions = count_up(self.stats.partitions);
        let args: [u64; 1] = [n as u64];
        assert(args@ =~= seq![n as u64]);
        self.io.world.observe(None, "partition", &args);
        proof {
            reveal(WorldView::observe);
            let gs = group_views(groups@);
            assert(self@ =~= (ClusterView {
                world: WorldView { net: c.world.net.partition(gs), ..c.world }.observe(
                    None,
                    "partition"@,
                    seq![gs.len() as u64],
                ),
                stats: RunStats { partitions: bump(c.stats.partitions), ..c.stats },
                ..c
            }));
        }
        self.schedule_heal();
    }

    fn isolate(&mut self, node: NodeId)
        requires
            old(self).wf(),
        ensures
            final(self).wf(),
            final(self)@ == old(self)@.isolate(node),
    {
        proof {
            reveal(ClusterView::isolate);
            reveal(WorldView::observe);
        }
        let ghost c = self@;
        self.io.world.net.isolate(node);
        self.stats.partitions = count_up(self.stats.partitions);
        self.io.world.observe(Some(node), "isolate", &[]);
        assert(self@ =~= (ClusterView {
            world: WorldView { net: c.world.net.isolate(node), ..c.world }.observe(
                Some(node),
                "isolate"@,
                Seq::empty(),
            ),
            stats: RunStats { partitions: bump(c.stats.partitions), ..c.stats },
            ..c
        }));
        self.schedule_heal();
    }

    fn recover(&mut self, now: Nanos)
        requires
            old(self).wf(),
        ensures
            final(self).wf(),
            final(self)@ == old(self)@.recover(now),
    {
        proof {
            reveal(ClusterView::recover);
        }
        self.heal_all();
        let ghost start = self@;
        let n: usize = self.members.len();
        let mut i: usize = 0;
        while i < n
            invariant
                i <= n == self.cfg.servers,
                self.wf(),
                self@ == start.restart_down(now, i as nat),
                self.cfg == start.cfg,
            decreases n - i,
        {
            let node = self.members[i];
            proof {
                assert(self@.members[i as int] == NodeId(i as u32));
                lemma_restart_keeps(self@, node, now);
            }
            self.restart(node, now);
            i += 1;
        }
        let ghost c = self@;
        self.recovered_at = Some(now);
        self.completed_at_recovery = self.history.completed();
        self.io.world.log(Level::Info, None, "harness", "fault window closed; cluster healed");
        proof {
            reveal(WorldView::log);
            assert(self@ =~= old(self)@.recover(now));
        }
    }

    fn apply_fault(&mut self, action: FaultAction, now: Nanos)
        requires
            old(self).wf(),
        ensures
            final(self).wf(),
            final(self)@ == old(self)@.struck(action@, now),
    {
        proof {
            reveal(ClusterView::struck);
        }
        match action {
            FaultAction::Tick => {},
            FaultAction::Crash(node) => {
                self.crash(node);
                self.stats.crashes = count_up(self.stats.crashes);
            },
            FaultAction::Restart(node) => self.restart(node, now),
            FaultAction::Partition(groups) => self.partition(groups),
            FaultAction::Isolate(node) => self.isolate(node),
            FaultAction::SlowLink(a, b) => {
                self.io.world.net.slow_link(a, b);
                assert(self@ =~= old(self)@.struck(action@, now));
            },
            FaultAction::HealNetwork => self.heal_all(),
            FaultAction::ClockJump(node, delta) => {
                if node.idx() < self.io.world.nodes() {
                    self.io.world.clock_jump(node, delta);
                    proof {
                        reveal(WorldView::clock_jump);
                        reveal(WorldView::observe);
                        assert(self@ =~= old(self)@.struck(action@, now));
                    }
                }
            },
            FaultAction::Recover => self.recover(now),
        }
    }

    fn fault_tick(&mut self, now: Nanos)
        requires
            old(self).wf(),
        ensures
            final(self).wf(),
            final(self)@ == old(self)@.fault_tick(now),
    {
        proof {
            reveal(ClusterView::fault_tick);
        }
        let ghost before = self@;
        let n: usize = self.cfg.servers;
        let up = slice_subrange(self.io.world.up_flags(), 0, n);
        assert(up@ =~= before.world.up.take(n as int));
        let leader = self.current_leader();
        let unsynced = self.unsynced();
        let hint = FaultHint { leader, unsynced: unsynced.as_slice() };
        let mut faults = self.io.world.faults;
        let mut rng = self.io.world.rng;
        let decided = faults.decide(&mut rng, now, up, &hint);
        self.io.world.faults = faults;
        self.io.world.rng = rng;
        let ghost d = before.world.faults.decision(
            before.world.rng,
            now,
            before.world.up.take(n as int),
            before.leader(),
            before.unsynced(),
        );
        assert(self@ =~= (ClusterView {
            world: WorldView { faults: d.injector, rng: d.rng, ..before.world },
            ..before
        }));
        if let Some(action) = decided {
            self.apply_fault(action, now);
        }
        // Keep ticking until the injector has emitted its recovery.
        if !self.io.world.faults.recovered() {
            let ghost c = self@;
            let delay: u64 = self.io.world.faults.next_tick_delay(&mut self.io.world.rng);
            self.io.world.sched.after(delay, Event::App { tag: APP_FAULT_TICK, arg: 0 });
            proof {
                let t = c.world.faults.cfg.tick_interval;
                let (dl, rg) = c.world.rng.range_of(t.0, t.1);
                assert(self@ =~= (ClusterView {
                    world: WorldView {
                        rng: rg,
                        sched: c.world.sched.after(
                            dl,
                            EventView::App { tag: APP_FAULT_TICK, arg: 0 },
                        ),
                        ..c.world
                    },
                    ..c
                }));
            }
        }
    }

    fn stop_clients(&mut self)
        requires
            old(self).wf(),
        ensures
            final(self).wf(),
            final(self)@ == (ClusterView {
                clients: old(self)@.clients.map_values(
                    |c: ClientView| ClientView { stopped: true, ..c },
                ),
                ..old(self)@
            }),
    {
        let ghost before = self@;
        let n: usize = self.clients.len();
        let mut k: usize = 0;
        while k < n
            invariant
                k <= n == self.clients@.len(),
                self.wf(),
                self@ == (ClusterView { clients: self@.clients, ..before }),
                before.clients.len() == n,
                forall|j: int|
                    0 <= j < k ==> #[trigger] self@.clients[j] == (ClientView {
                        stopped: true,
                        ..before.clients[j]
                    }),
                forall|j: int| k <= j < n ==> #[trigger] self@.clients[j] == before.clients[j],
            decreases n - k,
        {
            let ghost c = self@;
            assert(c.clients[k as int] == self.clients@[k as int]@);
            self.clients[k].stop();
            proof {
                let v = self.clients@[k as int]@;
                assert(self@.clients =~= c.clients.update(k as int, v));
                assert(self@ =~= (ClusterView { clients: self@.clients, ..before }));
            }
            k += 1;
        }
        assert(self@.clients =~= before.clients.map_values(
            |c: ClientView| ClientView { stopped: true, ..c },
        ));
    }

    fn on_app(&mut self, tag: u32, arg: u64, now: Nanos)
        requires
            old(self).wf(),
        ensures
            final(self).wf(),
            final(self)@ == old(self)@.on_app(tag, arg, now),
    {
        proof {
            reveal(ClusterView::on_app);
        }
        if tag == APP_FAULT_TICK {
            self.fault_tick(now);
        } else if tag == APP_HEAL {
            self.heal_all();
            self.io.world.observe(None, "heal", &[]);
            proof {
                reveal(WorldView::observe);
                assert(self@ =~= old(self)@.on_app(tag, arg, now));
            }
        } else if tag == APP_RESTART {
            self.restart(NodeId(low_u32(arg)), now);
        } else if tag == APP_STOP_CLIENTS {
            self.stop_clients();
        } else if tag == APP_STOP {
            self.finished = true;
        }
    }

    fn dispatch(&mut self, fired: Fired)
        requires
            old(self).wf(),
        ensures
            final(self).wf(),
            final(self)@ == old(self)@.dispatch(fired@),
    {
        proof {
            reveal(ClusterView::dispatch);
        }
        let now: u64 = fired.time;
        match fired.event {
            Event::Timer { node, timer } => self.on_timer(node, timer, now),
            Event::Deliver { from, to, payload, msg: _ } => {
                self.on_deliver(from, to, payload.as_slice(), now)
            },
            Event::Storage { node, op, result } => self.on_storage(node, op, result),
            Event::Fault(action) => self.apply_fault(action, now),
            Event::App { tag, arg } => self.on_app(tag, arg, now),
        }
    }

    /// A node that hit a storage error takes itself down; bring it back after a
    /// pause, the way a supervisor would restart a crashed process.
    fn reap(&mut self, i: usize)
        requires
            old(self).wf(),
            i < old(self)@.cfg.servers,
        ensures
            final(self).wf(),
            final(self)@ == old(self)@.reap(i as int),
    {
        proof {
            reveal(ClusterView::reap);
            assert(self@.servers[i as int] == match self.servers@[i as int] {
                Some(k) => Some(k@),
                None => None,
            });
        }
        let failed = match &self.servers[i] {
            Some(s) => s.failed(),
            None => false,
        };
        if failed {
            let node = NodeId(i as u32);
            self.crash(node);
            let ghost c = self@;
            self.stats.io_failures = count_up(self.stats.io_failures);
            let delay: u64 = self.io.world.faults.restart_delay(&mut self.io.world.rng);
            self.io.world.sched.after(delay, Event::App { tag: APP_RESTART, arg: node.0 as u64 });
            proof {
                let d = c.world.faults.cfg.restart_delay;
                let (dl, rg) = c.world.rng.range_of(d.0, d.1);
                assert(self@ =~= (ClusterView {
                    world: WorldView {
                        rng: rg,
                        sched: c.world.sched.after(
                            dl,
                            EventView::App { tag: APP_RESTART, arg: i as u64 },
                        ),
                        ..c.world
                    },
                    stats: RunStats { io_failures: bump(c.stats.io_failures), ..c.stats },
                    ..c
                }));
            }
        }
    }

    fn reap_failed(&mut self)
        requires
            old(self).wf(),
        ensures
            final(self).wf(),
            final(self)@ == old(self)@.reaped(old(self)@.cfg.servers as nat),
    {
        let ghost before = self@;
        let n: usize = self.cfg.servers;
        let mut i: usize = 0;
        while i < n
            invariant
                i <= n,
                n == self@.cfg.servers,
                n == before.cfg.servers,
                self.wf(),
                self@ == before.reaped(i as nat),
            decreases n - i,
        {
            proof {
                lemma_reap_keeps(self@, i as int);
            }
            self.reap(i);
            i += 1;
        }
    }

    /// Verify every live node's durability claim against the bytes that would
    /// actually survive a power cut.
    fn check_durable_claims(&mut self)
        requires
            old(self).wf(),
        ensures
            final(self).wf(),
            final(self)@ == old(self)@.check_claims(),
    {
        proof {
            reveal(ClusterView::check_claims);
        }
        let ghost before = self@;
        let now: u64 = self.io.world.now();
        let n: usize = self.cfg.servers;
        let mut i: usize = 0;
        while i < n
            invariant
                i <= n == self.cfg.servers,
                n == before.cfg.servers,
                now == before.world.sched.now,
                self.wf(),
                before.wf(),
                self@ == (ClusterView { report: self@.report, ..before }),
                self@.report == before.claims_checked(i as nat),
            decreases n - i,
        {
            let node = NodeId(i as u32);
            proof {
                assert(before.servers[i as int] == match self.servers@[i as int] {
                    Some(k) => Some(k@),
                    None => None,
                });
            }
            if self.io.world.is_up(node) {
                if let Some(server) = &self.servers[i] {
                    let disk = DiskView {
                        id: node,
                        bytes: self.io.world.durable_image(node, FILE_WAL),
                    };
                    let found = check_durable_claim(
                        now,
                        node,
                        server.raft.log().entries(),
                        server.raft.durable_index(),
                        &disk,
                    );
                    self.report.extend(found);
                }
            }
            assert(self@ =~= (ClusterView { report: self@.report, ..before }));
            i += 1;
        }
    }

    /// Report a truncation of committed entries not yet reported.
    fn check_truncation(&mut self, i: usize)
        requires
            old(self).wf(),
            i < old(self)@.cfg.servers,
        ensures
            final(self).wf(),
            final(self)@ == old(self)@.truncations_checked(i as int),
    {
        proof {
            assert(self@.servers[i as int] == match self.servers@[i as int] {
                Some(k) => Some(k@),
                None => None,
            });
        }
        if let Some(s) = &self.servers[i] {
            let n: u64 = s.raft.stats().truncated_committed;
            if n > self.truncated_committed_seen[i] {
                self.truncated_committed_seen[i] = n;
                let mut t = own(
                    "node truncated its log at or below its own commit index                          (commit ",
                );
                put_num(&mut t, s.raft.commit_index());
                t.append(")");
                let v = Violation::new(
                    "truncated_committed",
                    self.io.world.now(),
                    Some(NodeId(i as u32)),
                    t,
                );
                self.report.add(v);
                assert(self@ =~= old(self)@.truncations_checked(i as int));
            }
        }
    }

    fn check_truncations(&mut self)
        requires
            old(self).wf(),
        ensures
            final(self).wf(),
            final(self)@ == old(self)@.all_truncations_checked(old(self)@.cfg.servers as nat),
            final(self)@.cfg == old(self)@.cfg,
    {
        let ghost before = self@;
        let n: usize = self.cfg.servers;
        let mut i: usize = 0;
        while i < n
            invariant
                i <= n,
                n == self@.cfg.servers,
                self@.cfg == before.cfg,
                self.wf(),
                self@ == before.all_truncations_checked(i as nat),
            decreases n - i,
        {
            self.check_truncation(i);
            i += 1;
        }
    }

    fn check_invariants(&mut self)
        requires
            old(self).wf(),
        ensures
            final(self).wf(),
            final(self)@ == old(self)@.check_invariants(),
    {
        proof {
            reveal(ClusterView::check_invariants);
        }
        self.check_truncations();
        let ghost c = self@;
        let now: u64 = self.io.world.now();
        let n: usize = self.cfg.servers;
        let ghost all = Seq::new(n as nat, |i: int| c.facts_of(i));
        let mut views: Vec<NodeView> = Vec::new();
        let mut i: usize = 0;
        while i < n
            invariant
                i <= n == self.cfg.servers,
                self.wf(),
                self@ == c,
                all == Seq::new(n as nat, |i: int| c.facts_of(i)),
                views@.len() == i,
                forall|j: int|
                    0 <= j < i ==> (#[trigger] views@[j])@ == all[j] && views@[j].log@.wf(),
            decreases n - i,
        {
            let id = NodeId(i as u32);
            proof {
                assert(c.servers[i as int] == match self.servers@[i as int] {
                    Some(k) => Some(k@),
                    None => None,
                });
            }
            let incarnation: u64 = self.io.world.incarnation(id);
            let view = match &self.servers[i] {
                Some(s) => NodeView {
                    id,
                    up: self.io.world.is_up(id),
                    role: s.raft.role(),
                    term: s.raft.term(),
                    log: s.raft.log(),
                    commit_index: s.raft.commit_index(),
                    last_applied: s.raft.last_applied(),
                    durable_index: s.raft.durable_index(),
                    incarnation,
                    truncations: s.raft.stats().truncations,
                },
                None => NodeView {
                    id,
                    up: false,
                    role: Role::Follower,
                    term: 0,
                    log: &self.empty_log,
                    commit_index: 0,
                    last_applied: 0,
                    durable_index: 0,
                    incarnation,
                    truncations: 0,
                },
            };
            assert(view@ == c.facts_of(i as int));
            views.push(view);
            i += 1;
        }
        assert(facts(views@) =~= all);
        let found = self.invariants.observe(now, views.as_slice());
        self.report.extend(found);
        assert(self@ =~= old(self)@.check_invariants());
    }

    fn bootstrap(&mut self)
        requires
            old(self).wf(),
            old(self)@.world.sched.now == 0,
        ensures
            final(self).wf(),
            final(self)@ == old(self)@.bootstrapped(),
    {
        let stop_clients: u64 = add_capped(self.cfg.duration, self.cfg.settle);
        let stop: u64 = add_capped(stop_clients, self.cfg.drain);
        self.io.world.sched.at(
            self.cfg.faults.window.0,
            Event::App { tag: APP_FAULT_TICK, arg: 0 },
        );
        self.io.world.sched.at(stop_clients, Event::App { tag: APP_STOP_CLIENTS, arg: 0 });
        self.io.world.sched.at(stop, Event::App { tag: APP_STOP, arg: 0 });
        let ghost start = self@;
        assert(start =~= old(self)@.scheduled());
        // Stagger the clients so they do not all hit the same node at once.
        let n: usize = self.clients.len();
        let mut k: usize = 0;
        while k < n
            invariant
                k <= n == self.clients@.len(),
                self.wf(),
                self@ == start.staggered(k as nat),
            decreases n - k,
        {
            let ghost c = self@;
            let node = self.clients[k].node();
            assert(c.clients[k as int] == self.clients@[k as int]@);
            let delay: u64 = self.io.world.rng.range(0, STAGGER);
            self.io.world.set_timer(node, delay, TIMER_THINK);
            proof {
                reveal(WorldView::set_timer);
                let (dl, rg) = c.world.rng.range_of(0, STAGGER);
                assert(self@ =~= (ClusterView {
                    world: WorldView { rng: rg, ..c.world }.set_timer(node, dl, TIMER_THINK),
                    ..c
                }));
            }
            k += 1;
        }
    }

    /// One event, and the checks that are due after it.
    fn step(&mut self, fired: Fired)
        requires
            old(self).wf(),
        ensures
            final(self).wf(),
            final(self)@ == old(self)@.step(fired@),
    {
        proof {
            reveal(ClusterView::step);
        }
        self.events = count_up(self.events);
        self.dispatch(fired);
        self.reap_failed();
        if is_due(self.events, self.cfg.check_every) {
            self.check_invariants();
        }
        if is_due(self.events, self.cfg.check_durability_every) {
            self.check_durable_claims();
        }
    }

    /// Run events until the run ends, nothing is left to happen, or the budget
    /// is spent.
    fn drive(&mut self)
        requires
            old(self).wf(),
        ensures
            final(self).wf(),
            final(self)@ == old(self)@.driven(old(self)@.cfg.max_events as nat),
    {
        let ghost start = self@;
        let fuel: u64 = self.cfg.max_events;
        let mut left: u64 = fuel;
        while !self.finished
            invariant
                left <= fuel,
                start == old(self)@,
                fuel == start.cfg.max_events,
                self.wf(),
                start.driven(fuel as nat) == self@.driven(left as nat),
            decreases left,
        {
            let ghost before = self@;
            let next = self.io.world.sched.next();
            proof {
                let (sched, _) = before.world.sched.next();
                assert(self@ =~= (ClusterView {
                    world: WorldView { sched, ..before.world },
                    ..before
                }));
            }
            let fired = match next {
                Some(f) => f,
                None => {
                    return;
                },
            };
            if left == 0 {
                self.events = count_up(self.events);
                self.incomplete = true;
                return;
            }
            self.step(fired);
            left = left - 1;
        }
    }

    /// Replicas that have applied the same number of entries must agree.
    fn find_divergence(&self) -> (r: Vec<Violation>)
        requires
            self.wf(),
        ensures
            violation_views(r@) == ({
                let rs = self@.replicas(self@.cfg.servers as nat);
                diverged(self@.world.sched.now, rs, rs.len())
            }),
    {
        let mut states: Vec<(NodeId, u64, &KeyTable<String>)> = Vec::new();
        let n: usize = self.cfg.servers;
        let mut i: usize = 0;
        assert(replica_views(states@) =~= Seq::empty());
        while i < n
            invariant
                i <= n == self.cfg.servers,
                self.wf(),
                replica_views(states@) == self@.replicas(i as nat),
                forall|j: int| 0 <= j < states@.len() ==> (#[trigger] states@[j]).2.wf(),
            decreases n - i,
        {
            let id = NodeId(i as u32);
            proof {
                assert(self@.servers[i as int] == match self.servers@[i as int] {
                    Some(k) => Some(k@),
                    None => None,
                });
            }
            if self.io.world.is_up(id) {
                if let Some(s) = &self.servers[i] {
                    let ghost before = replica_views(states@);
                    states.push((id, s.raft.last_applied(), s.state()));
                    assert(replica_views(states@) =~= before.push(
                        ReplicaView {
                            id,
                            applied: s@.raft.last_applied,
                            state: s@.sm.state,
                        },
                    ));
                }
            }
            i += 1;
        }
        check_convergence(self.io.world.now(), states.as_slice())
    }

    /// Everything committed, as the cluster was seen to commit it.
    fn committed(&self) -> (r: Vec<CommittedEntry>)
        ensures
            committed_views(r@) == self@.committed(self@.seen.max_committed as nat),
    {
        let mut out: Vec<CommittedEntry> = Vec::new();
        let n: u64 = self.invariants.max_committed();
        let mut i: u64 = 0;
        assert(committed_views(out@) =~= Seq::empty());
        while i < n
            invariant
                i <= n == self@.seen.max_committed,
                committed_views(out@) == self@.committed(i as nat),
            decreases n - i,
        {
            let index: u64 = i + 1;
            if let Some(rec) = self.invariants.committed_entry(index) {
                let ghost before = committed_views(out@);
                out.push(CommittedEntry { index, term: rec.term, cmd: rec.cmd.clone() });
                assert(committed_views(out@) =~= before.push(
                    CommittedView { index, term: rec@.term, cmd: rec@.cmd },
                ));
            }
            i += 1;
        }
        out
    }

    /// Everything committed must be on stable storage on a majority.
    fn find_undurable(&self) -> (r: Vec<Violation>)
        requires
            self.wf(),
        ensures
            violation_views(r@) == not_durable(
                self@.world.sched.now,
                self@.committed(self@.seen.max_committed as nat),
                self@.durable_disks(),
                self@.cfg.servers as nat,
            ),
    {
        let committed = self.committed();
        let mut disks: Vec<DiskView> = Vec::new();
        let n: usize = self.cfg.servers;
        let mut i: usize = 0;
        while i < n
            invariant
                i <= n == self.cfg.servers,
                self.wf(),
                disks@.len() == i,
                forall|j: int|
                    0 <= j < i ==> (#[trigger] disks@[j]).id == NodeId(j as u32) && disks@[j].bytes@
                        == self@.world.disks[j].file(FILE_WAL).durable,
            decreases n - i,
        {
            let node = NodeId(i as u32);
            disks.push(DiskView { id: node, bytes: self.io.world.durable_image(node, FILE_WAL) });
            i += 1;
        }
        assert(durable_states(disks@) =~= self@.durable_disks());
        check_committed_durable(self.io.world.now(), committed.as_slice(), disks.as_slice(), n)
    }

    /// The final checks of the system.
    fn settle(&mut self)
        requires
            old(self).wf(),
        ensures
            final(self).wf(),
            final(self)@ == (ClusterView { report: old(self)@.settled(), ..old(self)@ }),
    {
        proof {
            reveal(ClusterView::settled);
        }
        let ghost before = self@;
        let now: u64 = self.io.world.now();
        // The recording itself has to be sane before anything based on it is.
        let recording = self.history.well_formed();
        let diverging = self.find_divergence();
        let undurable = self.find_undurable();
        if let Err(e) = &recording {
            let mut s = own("the harness recorded an impossible history: ");
            s.append(e.as_str());
            self.report.add(Violation::new("history_malformed", now, None, s));
        }
        self.report.extend(diverging);
        self.report.extend(undurable);
        assert(self@ =~= (ClusterView { report: before.settled(), ..before }));
    }

    /// Liveness: after everything healed, the cluster had to get back to work.
    /// A wedged cluster is a bug even if it never says anything wrong.
    fn is_wedged(&self) -> (r: Option<Nanos>)
        ensures
            match r {
                Some(at) => self@.wedged() && self@.recovered_at == Some(at),
                None => !self@.wedged(),
            },
    {
        if self.cfg.check_liveness && !self.incomplete && self.clients.len() > 0 {
            if let Some(at) = self.recovered_at {
                if self.history.completed() <= self.completed_at_recovery {
                    return Some(at);
                }
            }
        }
        None
    }

    fn count_clients(&self) -> (r: (u64, u64, u64))
        ensures
            r.0 == client_total(self@.clients, |c: ClientView| c.stats.started),
            r.1 == client_total(self@.clients, |c: ClientView| c.stats.abandoned),
            r.2 == client_total(self@.clients, |c: ClientView| c.stats.retries),
    {
        let (mut started, mut abandoned, mut retries): (u64, u64, u64) = (0, 0, 0);
        let ghost cs = self@.clients;
        let ghost f = |c: ClientView| c.stats.started;
        let ghost g = |c: ClientView| c.stats.abandoned;
        let ghost h = |c: ClientView| c.stats.retries;
        let n: usize = self.clients.len();
        let mut i: usize = 0;
        while i < n
            invariant
                i <= n == self.clients@.len(),
                cs == client_views(self.clients@),
                f == |c: ClientView| c.stats.started,
                g == |c: ClientView| c.stats.abandoned,
                h == |c: ClientView| c.stats.retries,
                started == total(cs.map_values(f).take(i as int)),
                abandoned == total(cs.map_values(g).take(i as int)),
                retries == total(cs.map_values(h).take(i as int)),
            decreases n - i,
        {
            let stats = self.clients[i].stats();
            proof {
                assert(cs[i as int] == self.clients@[i as int]@);
                lemma_total_step(cs.map_values(f), i as int);
                lemma_total_step(cs.map_values(g), i as int);
                lemma_total_step(cs.map_values(h), i as int);
            }
            started = add_capped(started, stats.started);
            abandoned = add_capped(abandoned, stats.abandoned);
            retries = add_capped(retries, stats.retries);
            i += 1;
        }
        proof {
            assert(cs.map_values(f).take(n as int) =~= cs.map_values(f));
            assert(cs.map_values(g).take(n as int) =~= cs.map_values(g));
            assert(cs.map_values(h).take(n as int) =~= cs.map_values(h));
        }
        (started, abandoned, retries)
    }

    fn count_servers(&self) -> (r: (u64, u64, u64, u64))
        ensures
            r.0 == server_total(self@.servers, |s: ServerView| s.raft.stats.elections_started),
            r.1 == server_total(self@.servers, |s: ServerView| s.raft.stats.elections_won),
            r.2 == server_total(self@.servers, |s: ServerView| s.raft.stats.truncations),
            r.3 == server_total(self@.servers, |s: ServerView| s.stats.bad_messages),
    {
        let (mut started, mut won, mut cut, mut bad): (u64, u64, u64, u64) = (0, 0, 0, 0);
        let ghost ss = self@.servers;
        let ghost a = |s: ServerView| s.raft.stats.elections_started;
        let ghost b = |s: ServerView| s.raft.stats.elections_won;
        let ghost c = |s: ServerView| s.raft.stats.truncations;
        let ghost d = |s: ServerView| s.stats.bad_messages;
        let n: usize = self.servers.len();
        let mut i: usize = 0;
        while i < n
            invariant
                i <= n == self.servers@.len(),
                ss == server_views(self.servers@),
                a == |s: ServerView| s.raft.stats.elections_started,
                b == |s: ServerView| s.raft.stats.elections_won,
                c == |s: ServerView| s.raft.stats.truncations,
                d == |s: ServerView| s.stats.bad_messages,
                started == total(counts(ss, a).take(i as int)),
                won == total(counts(ss, b).take(i as int)),
                cut == total(counts(ss, c).take(i as int)),
                bad == total(counts(ss, d).take(i as int)),
            decreases n - i,
        {
            proof {
                assert(ss[i as int] == match self.servers@[i as int] {
                    Some(k) => Some(k@),
                    None => None,
                });
                lemma_total_step(counts(ss, a), i as int);
                lemma_total_step(counts(ss, b), i as int);
                lemma_total_step(counts(ss, c), i as int);
                lemma_total_step(counts(ss, d), i as int);
            }
            if let Some(s) = &self.servers[i] {
                let stats = s.raft.stats();
                started = add_capped(started, stats.elections_started);
                won = add_capped(won, stats.elections_won);
                cut = add_capped(cut, stats.truncations);
                bad = add_capped(bad, s.stats().bad_messages);
            }
            i += 1;
        }
        proof {
            assert(counts(ss, a).take(n as int) =~= counts(ss, a));
            assert(counts(ss, b).take(n as int) =~= counts(ss, b));
            assert(counts(ss, c).take(n as int) =~= counts(ss, c));
            assert(counts(ss, d).take(n as int) =~= counts(ss, d));
        }
        (started, won, cut, bad)
    }

    fn final_stats(&self, steps: u64) -> (r: RunStats)
        requires
            steps == self@.verdict().1,
        ensures
            r == self@.final_stats(),
    {
        proof {
            reveal(ClusterView::final_stats);
        }
        let (ops_started, ops_abandoned, retries) = self.count_clients();
        let (elections, leaders_elected, truncations, bad_messages) = self.count_servers();
        let net = self.io.world.net_stats();
        let mut stats = self.stats;
        stats.events = self.events;
        stats.sim_time = self.io.world.now();
        stats.ops_started = ops_started;
        stats.ops_completed = self.history.completed() as u64;
        stats.ops_abandoned = ops_abandoned;
        stats.retries = retries;
        stats.max_committed = self.invariants.max_committed();
        stats.elections = elections;
        stats.leaders_elected = leaders_elected;
        stats.truncations = truncations;
        stats.bad_messages = bad_messages;
        stats.messages_sent = net.sent;
        stats.messages_dropped = add_capped(net.dropped_loss, net.dropped_partition);
        stats.linearizability_steps = steps;
        stats
    }

    fn finalize(self) -> (r: RunOutcome)
        requires
            self.wf(),
        ensures
            r@ == self@.finalized(),
    {
        proof {
            reveal(ClusterView::final_report);
        }
        let mut this = self;
        let ghost before = this@;
        let now: u64 = this.io.world.now();
        this.settle();
        if let Some(at) = this.is_wedged() {
            let since: u64 = if now > at {
                now - at
            } else {
                0
            };
            let mut s = own("no operation completed in the ");
            put_seconds(&mut s, since);
            s.append(" after the cluster healed at ");
            put_seconds(&mut s, at);
            this.report.add(Violation::new("no_progress_after_recovery", now, None, s));
        }
        // And finally the only thing a user can see.
        let mut lin = Checker::new();
        lin.budget = this.cfg.linearizability_budget;
        let verdict = lin.check(&this.history);
        if let Verdict::Violation { key, detail } = &verdict {
            let mut s = own("key ");
            s.append(key.as_str());
            s.append(": ");
            s.append(detail.as_str());
            this.report.add(Violation::new("linearizability", now, None, s));
        }
        assert(this@ =~= (ClusterView { report: before.final_report(), ..before }));
        proof {
            reveal(ClusterView::final_stats);
        }
        let stats = this.final_stats(lin.stats.steps);
        let trace = match this.cfg.trace_level {
            Level::Off => None,
            _ => Some(this.io.world.trace.render()),
        };
        let r = RunOutcome {
            seed: this.cfg.seed,
            config: this.cfg,
            fingerprint: this.io.world.fingerprint(),
            report: this.report,
            verdict,
            stats,
            incomplete: this.incomplete,
            history: this.history,
            trace,
        };
        assert(r@ =~= before.finalized());
        r
    }

    /// Run to completion and judge the result.
    pub fn run(self) -> (r: RunOutcome)
        requires
            self.wf(),
            self@.world.sched.now == 0,
        ensures
            r@ == self@.outcome(),
    {
        let mut this = self;
        this.bootstrap();
        proof {
            lemma_bootstrap_keeps(self@);
        }
        this.drive();
        this.check_invariants();
        this.finalize()
    }
}

/// The node number an event carries.
#[verifier::truncate]
fn low_u32(arg: u64) -> (r: u32)
    ensures
        r == arg as u32,
{
    arg as u32
}

/// Bringing a server back changes neither the configuration nor who there is.
proof fn lemma_restart_keeps(c: ClusterView, node: NodeId, now: Nanos)
    ensures
        c.restart(node, now).cfg == c.cfg,
        c.restart(node, now).members == c.members,
{
    reveal(ClusterView::restart);
}

/// Whether a sweep is due after so many events.
fn is_due(events: u64, every: u64) -> (r: bool)
    ensures
        r == due(events, every),
{
    if every == 0 {
        events == 0
    } else {
        events % every == 0
    }
}

/// Taking a failed server down does not change the configuration.
proof fn lemma_reap_keeps(c: ClusterView, i: int)
    ensures
        c.reap(i).cfg == c.cfg,
{
    reveal(ClusterView::reap);
    reveal(ClusterView::crash);
}

/// What each server has counted.
pub open spec fn counts(ss: Seq<Option<ServerView>>, f: spec_fn(ServerView) -> u64) -> Seq<u64> {
    ss.map_values(|s: Option<ServerView>| counted(s, f))
}

proof fn lemma_total_step(values: Seq<u64>, i: int)
    requires
        0 <= i < values.len(),
    ensures
        total(values.take(i + 1)) == plus(total(values.take(i)), values[i]),
{
    assert(values.take(i + 1).drop_last() =~= values.take(i));
}

fn put_seconds(s: &mut String, time: Nanos)
    ensures
        final(s)@ == old(s)@ + seconds_text(time),
{
    put_tenths(s, share_of(time, SECONDS));
    s.append("s");
    assert(s@ =~= old(s)@ + seconds_text(time));
}

/// Laying out the schedule does not change the configuration.
proof fn lemma_bootstrap_keeps(c: ClusterView)
    ensures
        c.bootstrapped().cfg == c.cfg,
{
    lemma_stagger_keeps(c.scheduled(), c.clients.len());
}

proof fn lemma_stagger_keeps(c: ClusterView, n: nat)
    ensures
        c.staggered(n).cfg == c.cfg,
    decreases n,
{
    if n > 0 {
        lemma_stagger_keeps(c, (n - 1) as nat);
    }
}

/// Run one simulation.
pub fn run(cfg: SimConfig) -> (r: RunOutcome)
    requires
        cfg.runnable(),
    ensures
        r@ == run_of(cfg),
{
    proof {
        reveal(run_of);
    }
    Cluster::new(cfg).run()
}

} // verus!
