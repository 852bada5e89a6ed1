//! A run as a mathematical value: what each event does to the whole system.

use crate::checker::durability::{
    claim_unbacked, diverged, not_durable, synced_lost, term_lost, CommittedView, DurableState, ReplicaView,
};
use crate::checker::invariants::{check_all, Audit, NodeFacts, Seen};
use crate::checker::linearizability::{check_keys, first_fault, keys_of, pending_count, VerdictView};
use crate::checker::operation::OperationView;
use crate::checker::report::{reported, reported_all, ViolationView};
use crate::count::{bump, plus};
use crate::figures::{share, tenths_text};
use crate::harness::config::SimConfig;
use crate::harness::outcome::{RunStats, RunView};
use crate::harness::workload::{Acted, ClientView, TIMER_THINK};
use crate::kvstore::log::{EntryView, LogView};
use crate::kvstore::raft_model::Role;
use crate::kvstore::server::{Served, ServerView};
use crate::kvstore::wire::{decoded, MessageView};
use crate::sim_io::storage::FILE_WAL;
use crate::sim_io::{enact_all, sim_state};
use crate::simcore::disk::IoResult;
use crate::simcore::faults::FaultView;
use crate::simcore::net::NetView;
use crate::simcore::rng::Rng;
use crate::simcore::scheduler::{EventView, FiredView};
use crate::simcore::trace::Level;
use crate::simcore::world::WorldView;
use crate::simcore::{Nanos, NodeId, SECONDS};
use crate::text::{decimal};
use vstd::prelude::*;

verus! {

pub const APP_FAULT_TICK: u32 = 1;

pub const APP_HEAL: u32 = 2;

pub const APP_RESTART: u32 = 3;

pub const APP_STOP_CLIENTS: u32 = 4;

pub const APP_STOP: u32 = 5;

/// The most a client waits before its first operation.
pub const STAGGER: Nanos = 20_000_000;

/// What client seeds are mixed with.
pub const CLIENT_SEED: u64 = 0xC11E_0000;

/// The whole system under test, and everything that judges it.
#[verifier::ext_equal]
pub struct ClusterView {
    pub world: WorldView,
    pub servers: Seq<Option<ServerView>>,
    pub clients: Seq<ClientView>,
    pub members: Seq<NodeId>,
    pub cfg: SimConfig,
    pub history: Seq<OperationView>,
    pub seen: Seen,
    pub report: Seq<ViolationView>,
    /// Each node's log just before it crashed, and how much of it was synced.
    pub pre_crash: Map<u32, (Seq<EntryView>, u64)>,
    /// The highest term each node was seen to send a message in.
    pub acted: Map<u32, u64>,
    /// Per node, how many truncations of committed entries were reported.
    pub truncated_seen: Seq<u64>,
    pub events: u64,
    pub incomplete: bool,
    pub finished: bool,
    pub recovered_at: Option<Nanos>,
    pub completed_at_recovery: int,
    pub stats: RunStats,
}

/// The first `n` nodes.
pub open spec fn first_nodes(n: nat) -> Seq<NodeId> {
    Seq::new(n, |i: int| NodeId(i as u32))
}

/// A node's private random stream. Mixing in the incarnation stops a restarted
/// node from replaying the same election timeouts it used before it crashed,
/// which would make two nodes livelock in lockstep.
pub open spec fn seed_of(seed: u64, node: NodeId, incarnation: u64) -> u64 {
    seed ^ (node.0 as u64).wrapping_mul(0x9E37_79B9_7F4A_7C15) ^ incarnation.wrapping_mul(
        0xD6E8_FEB8_6659_FD93,
    )
}

/// Whether a sweep is due after so many events.
pub open spec fn due(events: u64, every: u64) -> bool {
    if every == 0 {
        events == 0
    } else {
        events % every == 0
    }
}

/// The servers of a cluster once the first `n` have started, and their world.
pub open spec fn booted(cfg: SimConfig, n: nat) -> (WorldView, Seq<Option<ServerView>>)
    decreases n,
{
    if n == 0 {
        (WorldView::made(cfg.world()), Seq::empty())
    } else {
        let (w, servers) = booted(cfg, (n - 1) as nat);
        let node = NodeId((n - 1) as u32);
        let s = ServerView::recover(
            sim_state(w, node),
            node,
            first_nodes(cfg.servers as nat),
            cfg.raft,
            seed_of(cfg.seed, node, 0),
        );
        (enact_all(w, node, s.io.log), servers.push(Some(s.server)))
    }
}

/// A client of a cluster before the run.
pub open spec fn client_made(cfg: SimConfig, i: int) -> ClientView {
    ClientView::made(
        i as u32,
        NodeId((cfg.servers + i) as u32),
        first_nodes(cfg.servers as nat),
        cfg.seed ^ CLIENT_SEED ^ (i as u64),
        cfg.workload,
    )
}

/// Groups of nodes with the first `n` clients placed at random, and the
/// generator after placing them.
pub open spec fn placed(
    groups: Seq<Seq<NodeId>>,
    rng: Rng,
    clients: Seq<ClientView>,
    n: nat,
) -> (Seq<Seq<NodeId>>, Rng)
    decreases n,
{
    if n == 0 || groups.len() == 0 {
        (groups, rng)
    } else {
        let (gs, r) = placed(groups, rng, clients, (n - 1) as nat);
        let (g, q) = r.below_of(gs.len() as u64);
        (gs.update(g as int, gs[g as int].push(clients[n - 1].node)), q)
    }
}

/// The numbers of a list together, as far as they go.
pub open spec fn total(values: Seq<u64>) -> u64
    decreases values.len(),
{
    if values.len() == 0 {
        0
    } else {
        plus(total(values.drop_last()), values.last())
    }
}

/// What a server has counted, nothing where it is down.
pub open spec fn counted(s: Option<ServerView>, f: spec_fn(ServerView) -> u64) -> u64 {
    match s {
        Some(v) => f(v),
        None => 0,
    }
}

/// What the servers that are running have counted together.
pub open spec fn server_total(servers: Seq<Option<ServerView>>, f: spec_fn(ServerView) -> u64) -> u64 {
    total(servers.map_values(|s: Option<ServerView>| counted(s, f)))
}

/// What the clients have counted together.
pub open spec fn client_total(clients: Seq<ClientView>, f: spec_fn(ClientView) -> u64) -> u64 {
    total(clients.map_values(f))
}

/// A time in seconds, to one decimal.
pub open spec fn seconds_text(time: Nanos) -> Seq<char> {
    tenths_text(share(time as nat, SECONDS as nat)) + "s"@
}

/// How many operations of a history were answered.
pub open spec fn completed_count(history: Seq<OperationView>) -> int {
    history.len() - pending_count(history)
}

impl ClusterView {
    /// A cluster before its run.
    pub open spec fn made(cfg: SimConfig) -> ClusterView {
        let (world, servers) = booted(cfg, cfg.servers as nat);
        ClusterView {
            world,
            servers,
            clients: Seq::new(cfg.clients as nat, |i: int| client_made(cfg, i)),
            members: first_nodes(cfg.servers as nat),
            cfg,
            history: Seq::empty(),
            seen: Seen::blank(),
            report: Seq::empty(),
            pre_crash: Map::empty(),
            acted: Map::empty(),
            truncated_seen: Seq::new(cfg.servers as nat, |i: int| 0u64),
            events: 0,
            incomplete: false,
            finished: false,
            recovered_at: None,
            completed_at_recovery: 0,
            stats: RunStats::zero(),
        }
    }

    /// Every node of the configuration is there.
    pub open spec fn wf(self) -> bool {
        &&& self.cfg.runnable()
        &&& self.world.wf()
        &&& self.world.nodes() == self.cfg.servers + self.cfg.clients
        &&& self.servers.len() == self.cfg.servers
        &&& self.clients.len() == self.cfg.clients
        &&& self.truncated_seen.len() == self.cfg.servers
        &&& self.members == first_nodes(self.cfg.servers as nat)
    }

    /// Whether a node is a client rather than a server.
    pub open spec fn is_client(self, node: NodeId) -> bool {
        node.0 >= self.cfg.servers
    }

    /// A server took a step.
    pub open spec fn served(self, node: NodeId, s: Served) -> ClusterView {
        ClusterView {
            servers: self.servers.update(node.0 as int, Some(s.server)),
            world: enact_all(self.world, node, s.io.log),
            ..self
        }
    }

    /// A client took a step.
    pub open spec fn acted_on(self, node: NodeId, a: Acted) -> ClusterView {
        ClusterView {
            clients: self.clients.update(node.0 - self.cfg.servers, a.client),
            history: a.history,
            world: enact_all(self.world, node, a.io.log),
            ..self
        }
    }

    /// The server running on a node, where one is.
    pub open spec fn running(self, node: NodeId) -> Option<ServerView> {
        if node.0 < self.cfg.servers && self.world.up[node.0 as int] {
            self.servers[node.0 as int]
        } else {
            None
        }
    }

    /// A timer fires.
    #[verifier::opaque]
    pub open spec fn on_timer(self, node: NodeId, timer: u64, now: Nanos) -> ClusterView {
        if !self.world.has(node) {
            self
        } else if self.is_client(node) {
            self.acted_on(
                node,
                self.clients[node.0 - self.cfg.servers].on_timer(
                    sim_state(self.world, node),
                    self.history,
                    now,
                    timer,
                ),
            )
        } else {
            match self.running(node) {
                Some(s) => self.served(node, s.on_timer(sim_state(self.world, node), timer)),
                None => self,
            }
        }
    }

    /// A storage operation completes.
    #[verifier::opaque]
    pub open spec fn on_storage(self, node: NodeId, op: u64, result: IoResult) -> ClusterView {
        match self.running(node) {
            Some(s) => self.served(
                node,
                s.on_storage(sim_state(self.world, node), op, result == IoResult::Done),
            ),
            None => self,
        }
    }

    /// A message that was sent is evidence about its sender, whether or not it
    /// is allowed to arrive.
    #[verifier::opaque]
    pub open spec fn noted(self, from: NodeId, payload: Seq<u8>) -> ClusterView {
        match decoded(payload) {
            Ok(MessageView::Raft(m)) => if self.is_client(from) {
                self
            } else {
                let was = if self.acted.contains_key(from.0) {
                    self.acted[from.0]
                } else {
                    0
                };
                ClusterView {
                    seen: self.seen.note_sent(from, m.term()),
                    acted: self.acted.insert(
                        from.0,
                        if m.term() > was {
                            m.term()
                        } else {
                            was
                        },
                    ),
                    ..self
                }
            },
            _ => self,
        }
    }

    /// A message that was let through reaches its receiver.
    #[verifier::opaque]
    pub open spec fn delivered(self, from: NodeId, to: NodeId, payload: Seq<u8>, now: Nanos) -> ClusterView {
        let c = ClusterView {
            stats: RunStats {
                messages_delivered: bump(self.stats.messages_delivered),
                ..self.stats
            },
            ..self
        };
        if c.is_client(to) {
            c.acted_on(
                to,
                c.clients[to.0 - c.cfg.servers].on_bytes(
                    sim_state(c.world, to),
                    c.history,
                    now,
                    payload,
                ),
            )
        } else {
            match c.servers[to.0 as int] {
                Some(s) => c.served(to, s.on_bytes(sim_state(c.world, to), from, payload)),
                None => c,
            }
        }
    }

    /// A message arrives.
    #[verifier::opaque]
    pub open spec fn on_deliver(self, from: NodeId, to: NodeId, payload: Seq<u8>, now: Nanos) -> ClusterView {
        let c = self.noted(from, payload);
        if !c.world.has(to) {
            c
        } else {
            let (world, ok) = c.world.accept_delivery(from, to);
            let d = ClusterView { world, ..c };
            if ok {
                d.delivered(from, to, payload, now)
            } else {
                d
            }
        }
    }

    /// Whoever believes they lead among the first `n` nodes, at the highest
    /// term.
    pub open spec fn leading(self, n: nat) -> Option<(u64, NodeId)>
        decreases n,
    {
        if n == 0 {
            None
        } else {
            let best = self.leading((n - 1) as nat);
            let node = NodeId((n - 1) as u32);
            match self.running(node) {
                Some(s) => if s.raft.role == Role::Leader && (best is None || s.raft.term
                    > best->Some_0.0) {
                    Some((s.raft.term, node))
                } else {
                    best
                },
                None => best,
            }
        }
    }

    /// Whoever currently believes they are leading, at the highest term seen.
    pub open spec fn leader(self) -> Option<NodeId> {
        match self.leading(self.cfg.servers as nat) {
            Some((_, node)) => Some(node),
            None => None,
        }
    }

    /// Which servers hold writes they have not synced.
    pub open spec fn unsynced(self) -> Seq<bool> {
        Seq::new(
            self.cfg.servers as nat,
            |i: int| self.world.disks[i].file(FILE_WAL).pending.len() > 0,
        )
    }

    /// The healing of a partition is scheduled.
    #[verifier::opaque]
    pub open spec fn heal_later(self) -> ClusterView {
        let d = self.world.faults.cfg.partition_duration;
        let (delay, rng) = self.world.rng.range_of(d.0, d.1);
        ClusterView {
            world: WorldView {
                rng,
                sched: self.world.sched.after(delay, EventView::App { tag: APP_HEAL, arg: 0 }),
                ..self.world
            },
            ..self
        }
    }

    /// Every link is repaired.
    pub open spec fn healed(self) -> ClusterView {
        ClusterView {
            world: WorldView {
                net: NetView { blocked: Set::empty(), slow: Set::empty(), ..self.world.net },
                ..self.world
            },
            ..self
        }
    }

    /// A server loses power. Its log and how much of it was synced are kept:
    /// that is the part recovery is obliged to bring back.
    #[verifier::opaque]
    pub open spec fn crash(self, node: NodeId) -> ClusterView {
        if node.0 >= self.cfg.servers || !self.world.up[node.0 as int] {
            self
        } else {
            ClusterView {
                pre_crash: match self.servers[node.0 as int] {
                    Some(s) => self.pre_crash.insert(
                        node.0,
                        (s.raft.log.entries, s.raft.durable_index()),
                    ),
                    None => self.pre_crash,
                },
                servers: self.servers.update(node.0 as int, None),
                world: self.world.crash_node(node),
                ..self
            }
        }
    }

    /// A server comes back: what it had synced must be there, and its disk must
    /// not have forgotten a term it acted in.
    #[verifier::opaque]
    pub open spec fn restart(self, node: NodeId, now: Nanos) -> ClusterView {
        if node.0 >= self.cfg.servers || self.world.up[node.0 as int] {
            self
        } else {
            let w = self.world.restart_node(node);
            let s = ServerView::recover(
                sim_state(w, node),
                node,
                self.members,
                self.cfg.raft,
                seed_of(self.cfg.seed, node, w.incarnation[node.0 as int]),
            );
            let world = enact_all(w, node, s.io.log);
            let first = if self.pre_crash.contains_key(node.0) {
                let (before, durable) = self.pre_crash[node.0];
                reported_all(
                    self.report,
                    synced_lost(now, node, before, durable, s.server.raft.log.entries),
                )
            } else {
                self.report
            };
            let report = if self.acted.contains_key(node.0) {
                reported_all(
                    first,
                    term_lost(
                        now,
                        node,
                        self.acted[node.0],
                        world.disks[node.0 as int].file(FILE_WAL).durable,
                    ),
                )
            } else {
                first
            };
            ClusterView {
                world,
                servers: self.servers.update(node.0 as int, Some(s.server)),
                report,
                stats: RunStats { restarts: bump(self.stats.restarts), ..self.stats },
                ..self
            }
        }
    }

    /// The first `n` servers are brought back, where they are down.
    pub open spec fn restart_down(self, now: Nanos, n: nat) -> ClusterView
        decreases n,
    {
        if n == 0 {
            self
        } else {
            self.restart_down(now, (n - 1) as nat).restart(NodeId((n - 1) as u32), now)
        }
    }

    /// The network is cut. Clients are placed on one side or the other, so a
    /// client can find itself talking to a minority that cannot commit.
    #[verifier::opaque]
    pub open spec fn cut(self, groups: Seq<Seq<NodeId>>) -> ClusterView {
        let (gs, rng) = placed(groups, self.world.rng, self.clients, self.clients.len());
        let c = ClusterView { world: WorldView { rng, ..self.world }, ..self }.healed();
        ClusterView {
            world: WorldView { net: c.world.net.partition(gs), ..c.world }.observe(
                None,
                "partition"@,
                seq![gs.len() as u64],
            ),
            stats: RunStats { partitions: bump(c.stats.partitions), ..c.stats },
            ..c
        }.heal_later()
    }

    /// One node is cut off.
    #[verifier::opaque]
    pub open spec fn isolate(self, node: NodeId) -> ClusterView {
        ClusterView {
            world: WorldView { net: self.world.net.isolate(node), ..self.world }.observe(
                Some(node),
                "isolate"@,
                Seq::empty(),
            ),
            stats: RunStats { partitions: bump(self.stats.partitions), ..self.stats },
            ..self
        }.heal_later()
    }

    /// The fault window closes: everything heals and every node comes back.
    #[verifier::opaque]
    pub open spec fn recover(self, now: Nanos) -> ClusterView {
        let c = self.healed().restart_down(now, self.cfg.servers as nat);
        ClusterView {
            recovered_at: Some(now),
            completed_at_recovery: completed_count(c.history),
            world: c.world.log(
                Level::Info,
                None,
                "harness"@,
                "fault window closed; cluster healed"@,
            ),
            ..c
        }
    }

    /// A fault strikes.
    #[verifier::opaque]
    pub open spec fn struck(self, action: FaultView, now: Nanos) -> ClusterView {
        match action {
            FaultView::Tick => self,
            FaultView::Crash(node) => {
                let c = self.crash(node);
                ClusterView { stats: RunStats { crashes: bump(c.stats.crashes), ..c.stats }, ..c }
            },
            FaultView::Restart(node) => self.restart(node, now),
            FaultView::Partition(groups) => self.cut(groups),
            FaultView::Isolate(node) => self.isolate(node),
            FaultView::SlowLink(a, b) => ClusterView {
                world: WorldView {
                    net: NetView {
                        slow: self.world.net.slow.insert((a.0, b.0)),
                        ..self.world.net
                    },
                    ..self.world
                },
                ..self
            },
            FaultView::HealNetwork => self.healed(),
            FaultView::ClockJump(node, delta) => if self.world.has(node) {
                ClusterView { world: self.world.clock_jump(node, delta), ..self }
            } else {
                self
            },
            FaultView::Recover => self.recover(now),
        }
    }

    /// The injector decides; it keeps ticking until it has emitted its
    /// recovery.
    #[verifier::opaque]
    pub open spec fn fault_tick(self, now: Nanos) -> ClusterView {
        let d = self.world.faults.decision(
            self.world.rng,
            now,
            self.world.up.take(self.cfg.servers as int),
            self.leader(),
            self.unsynced(),
        );
        let decided = ClusterView {
            world: WorldView { faults: d.injector, rng: d.rng, ..self.world },
            ..self
        };
        let c = match d.action {
            Some(a) => decided.struck(a, now),
            None => decided,
        };
        if c.world.faults.recovered {
            c
        } else {
            let t = c.world.faults.cfg.tick_interval;
            let (delay, rng) = c.world.rng.range_of(t.0, t.1);
            ClusterView {
                world: WorldView {
                    rng,
                    sched: c.world.sched.after(delay, EventView::App { tag: APP_FAULT_TICK, arg: 0 }),
                    ..c.world
                },
                ..c
            }
        }
    }

    /// A tick of the run's own schedule.
    #[verifier::opaque]
    pub open spec fn on_app(self, tag: u32, arg: u64, now: Nanos) -> ClusterView {
        if tag == APP_FAULT_TICK {
            self.fault_tick(now)
        } else if tag == APP_HEAL {
            let c = self.healed();
            ClusterView { world: c.world.observe(None, "heal"@, Seq::empty()), ..c }
        } else if tag == APP_RESTART {
            self.restart(NodeId(arg as u32), now)
        } else if tag == APP_STOP_CLIENTS {
            ClusterView {
                clients: self.clients.map_values(
                    |c: ClientView| ClientView { stopped: true, ..c },
                ),
                ..self
            }
        } else if tag == APP_STOP {
            ClusterView { finished: true, ..self }
        } else {
            self
        }
    }

    /// An event happens.
    #[verifier::opaque]
    pub open spec fn dispatch(self, f: FiredView) -> ClusterView {
        match f.event {
            EventView::Timer { node, timer } => self.on_timer(node, timer, f.time),
            EventView::Deliver { from, to, payload, msg: _ } => self.on_deliver(
                from,
                to,
                payload,
                f.time,
            ),
            EventView::Storage { node, op, result } => self.on_storage(node, op, result),
            EventView::Fault(action) => self.struck(action, f.time),
            EventView::App { tag, arg } => self.on_app(tag, arg, f.time),
        }
    }

    /// A server that hit a storage error is taken down, to come back after a
    /// pause.
    #[verifier::opaque]
    pub open spec fn reap(self, i: int) -> ClusterView {
        match self.servers[i] {
            Some(s) => if s.raft.failed {
                let c = self.crash(NodeId(i as u32));
                let d = c.world.faults.cfg.restart_delay;
                let (delay, rng) = c.world.rng.range_of(d.0, d.1);
                ClusterView {
                    world: WorldView {
                        rng,
                        sched: c.world.sched.after(
                            delay,
                            EventView::App { tag: APP_RESTART, arg: i as u64 },
                        ),
                        ..c.world
                    },
                    stats: RunStats { io_failures: bump(c.stats.io_failures), ..c.stats },
                    ..c
                }
            } else {
                self
            },
            None => self,
        }
    }

    /// The same of the first `n` servers.
    pub open spec fn reaped(self, n: nat) -> ClusterView
        decreases n,
    {
        if n == 0 {
            self
        } else {
            self.reaped((n - 1) as nat).reap(n - 1)
        }
    }

    /// The durability claims of the first `n` servers are held against the
    /// bytes that would survive a power cut.
    pub open spec fn claims_checked(self, n: nat) -> Seq<ViolationView>
        decreases n,
    {
        if n == 0 {
            self.report
        } else {
            let report = self.claims_checked((n - 1) as nat);
            let node = NodeId((n - 1) as u32);
            match self.running(node) {
                Some(s) => reported_all(
                    report,
                    claim_unbacked(
                        self.world.sched.now,
                        node,
                        s.raft.log.entries,
                        s.raft.durable_index(),
                        self.world.disks[n - 1].file(FILE_WAL).durable,
                    ),
                ),
                None => report,
            }
        }
    }

    /// The durability sweep.
    #[verifier::opaque]
    pub open spec fn check_claims(self) -> ClusterView {
        ClusterView { report: self.claims_checked(self.cfg.servers as nat), ..self }
    }

    /// Truncations of committed entries not yet reported are.
    pub open spec fn truncations_checked(self, i: int) -> ClusterView {
        match self.servers[i] {
            Some(s) => if s.raft.stats.truncated_committed > self.truncated_seen[i] {
                ClusterView {
                    truncated_seen: self.truncated_seen.update(
                        i,
                        s.raft.stats.truncated_committed,
                    ),
                    report: reported(
                        self.report,
                        ViolationView {
                            kind: "truncated_committed"@,
                            time: self.world.sched.now,
                            node: Some(NodeId(i as u32)),
                            detail:
                                "node truncated its log at or below its own commit index                          (commit "@
                                + decimal(s.raft.commit_index as nat) + ")"@,
                        },
                    ),
                    ..self
                }
            } else {
                self
            },
            None => self,
        }
    }

    /// The same of the first `n` servers.
    pub open spec fn all_truncations_checked(self, n: nat) -> ClusterView
        decreases n,
    {
        if n == 0 {
            self
        } else {
            self.all_truncations_checked((n - 1) as nat).truncations_checked(n - 1)
        }
    }

    /// What the checks see of a server.
    pub open spec fn facts_of(self, i: int) -> NodeFacts {
        let id = NodeId(i as u32);
        match self.servers[i] {
            Some(s) => NodeFacts {
                id,
                up: self.world.up[i],
                role: s.raft.role,
                term: s.raft.term,
                log: s.raft.log,
                commit_index: s.raft.commit_index,
                last_applied: s.raft.last_applied,
                durable_index: s.raft.durable_index(),
                incarnation: self.world.incarnation[i],
                truncations: s.raft.stats.truncations,
            },
            None => NodeFacts {
                id,
                up: false,
                role: Role::Follower,
                term: 0,
                log: LogView::empty(),
                commit_index: 0,
                last_applied: 0,
                durable_index: 0,
                incarnation: self.world.incarnation[i],
                truncations: 0,
            },
        }
    }

    /// The invariant sweep.
    #[verifier::opaque]
    pub open spec fn check_invariants(self) -> ClusterView {
        let n = self.cfg.servers as nat;
        let c = self.all_truncations_checked(n);
        let a = check_all(
            Audit { seen: Seen { checks: bump(c.seen.checks), ..c.seen }, out: Seq::empty() },
            c.world.sched.now,
            Seq::new(n, |i: int| c.facts_of(i)),
            n,
        );
        ClusterView { seen: a.seen, report: reported_all(c.report, a.out), ..c }
    }

    /// One event, and the checks that are due after it.
    #[verifier::opaque]
    pub open spec fn step(self, f: FiredView) -> ClusterView {
        let done = ClusterView { events: bump(self.events), ..self }.dispatch(f);
        let c = done.reaped(done.cfg.servers as nat);
        let d = if due(c.events, c.cfg.check_every) {
            c.check_invariants()
        } else {
            c
        };
        if due(d.events, d.cfg.check_durability_every) {
            d.check_claims()
        } else {
            d
        }
    }

    /// Up to `fuel` more events, until the run ends or nothing is left to
    /// happen. A run that would need more is incomplete.
    pub open spec fn driven(self, fuel: nat) -> ClusterView
        decreases fuel,
    {
        if self.finished {
            self
        } else {
            let (sched, next) = self.world.sched.next();
            let c = ClusterView { world: WorldView { sched, ..self.world }, ..self };
            match next {
                None => c,
                Some(f) => if fuel == 0 {
                    ClusterView { events: bump(c.events), incomplete: true, ..c }
                } else {
                    c.step(f).driven((fuel - 1) as nat)
                },
            }
        }
    }

    /// The first `n` clients are set off at different times, so they do not all
    /// hit the same node at once.
    pub open spec fn staggered(self, n: nat) -> ClusterView
        decreases n,
    {
        if n == 0 {
            self
        } else {
            let c = self.staggered((n - 1) as nat);
            let (delay, rng) = c.world.rng.range_of(0, STAGGER);
            ClusterView {
                world: WorldView { rng, ..c.world }.set_timer(
                    c.clients[n - 1].node,
                    delay,
                    TIMER_THINK,
                ),
                ..c
            }
        }
    }

    /// The run's own schedule.
    pub open spec fn scheduled(self) -> ClusterView {
        let stop_clients = plus(self.cfg.duration, self.cfg.settle);
        let stop = plus(stop_clients, self.cfg.drain);
        ClusterView {
            world: WorldView {
                sched: self.world.sched.at(
                    self.cfg.faults.window.0,
                    EventView::App { tag: APP_FAULT_TICK, arg: 0 },
                ).at(stop_clients, EventView::App { tag: APP_STOP_CLIENTS, arg: 0 }).at(
                    stop,
                    EventView::App { tag: APP_STOP, arg: 0 },
                ),
                ..self.world
            },
            ..self
        }
    }

    /// The run's own schedule is laid out, and the clients are set off.
    pub open spec fn bootstrapped(self) -> ClusterView {
        self.scheduled().staggered(self.clients.len())
    }

    /// The servers, of the first `n`, whose data can be compared.
    pub open spec fn replicas(self, n: nat) -> Seq<ReplicaView>
        decreases n,
    {
        if n == 0 {
            Seq::empty()
        } else {
            let rest = self.replicas((n - 1) as nat);
            let id = NodeId((n - 1) as u32);
            match self.running(id) {
                Some(s) => rest.push(
                    ReplicaView { id, applied: s.raft.last_applied, state: s.sm.state },
                ),
                None => rest,
            }
        }
    }

    /// Everything committed, up to an index.
    pub open spec fn committed(self, n: nat) -> Seq<CommittedView>
        decreases n,
    {
        if n == 0 {
            Seq::empty()
        } else {
            let rest = self.committed((n - 1) as nat);
            let index = n as u64;
            if self.seen.committed.contains_key(index) {
                let rec = self.seen.committed[index];
                rest.push(CommittedView { index, term: rec.term, cmd: rec.cmd })
            } else {
                rest
            }
        }
    }

    /// What the disks of the servers hold.
    pub open spec fn durable_disks(self) -> Seq<(NodeId, DurableState)> {
        Seq::new(
            self.cfg.servers as nat,
            |i: int|
                (
                    NodeId(i as u32),
                    DurableState::of(self.world.disks[i].file(FILE_WAL).durable),
                ),
        )
    }

    /// Whether the cluster stayed wedged after everything healed.
    pub open spec fn wedged(self) -> bool {
        &&& self.cfg.check_liveness
        &&& !self.incomplete
        &&& self.clients.len() > 0
        &&& self.recovered_at is Some
        &&& completed_count(self.history) <= self.completed_at_recovery
    }

    /// The verdict on the history, and what reaching it took.
    pub open spec fn verdict(self) -> (VerdictView, u64) {
        check_keys(self.history, keys_of(self.history), 0, self.cfg.linearizability_budget, 0)
    }

    /// The report once the final checks of the system are made.
    #[verifier::opaque]
    pub open spec fn settled(self) -> Seq<ViolationView> {
        let now = self.world.sched.now;
        let recorded = match first_fault(self.history, 0) {
            Some(e) => reported(
                self.report,
                ViolationView {
                    kind: "history_malformed"@,
                    time: now,
                    node: None,
                    detail: "the harness recorded an impossible history: "@ + e,
                },
            ),
            None => self.report,
        };
        let replicas = self.replicas(self.cfg.servers as nat);
        let converged = reported_all(recorded, diverged(now, replicas, replicas.len()));
        reported_all(
            converged,
            not_durable(
                now,
                self.committed(self.seen.max_committed as nat),
                self.durable_disks(),
                self.cfg.servers as nat,
            ),
        )
    }

    /// The report of the whole run.
    #[verifier::opaque]
    pub open spec fn final_report(self) -> Seq<ViolationView> {
        let now = self.world.sched.now;
        let live = if self.wedged() {
            let at = self.recovered_at->Some_0;
            let since = if now > at {
                (now - at) as u64
            } else {
                0
            };
            reported(
                self.settled(),
                ViolationView {
                    kind: "no_progress_after_recovery"@,
                    time: now,
                    node: None,
                    detail: "no operation completed in the "@ + seconds_text(since)
                        + " after the cluster healed at "@ + seconds_text(at),
                },
            )
        } else {
            self.settled()
        };
        match self.verdict().0 {
            VerdictView::Violation { key, detail } => reported(
                live,
                ViolationView {
                    kind: "linearizability"@,
                    time: now,
                    node: None,
                    detail: "key "@ + key + ": "@ + detail,
                },
            ),
            _ => live,
        }
    }

    /// What was counted over the run.
    #[verifier::opaque]
    pub open spec fn final_stats(self) -> RunStats {
        RunStats {
            events: self.events,
            sim_time: self.world.sched.now,
            ops_started: client_total(self.clients, |c: ClientView| c.stats.started),
            ops_completed: completed_count(self.history) as u64,
            ops_abandoned: client_total(self.clients, |c: ClientView| c.stats.abandoned),
            retries: client_total(self.clients, |c: ClientView| c.stats.retries),
            max_committed: self.seen.max_committed,
            elections: server_total(self.servers, |s: ServerView| s.raft.stats.elections_started),
            leaders_elected: server_total(self.servers, |s: ServerView| s.raft.stats.elections_won),
            truncations: server_total(self.servers, |s: ServerView| s.raft.stats.truncations),
            bad_messages: server_total(self.servers, |s: ServerView| s.stats.bad_messages),
            messages_sent: self.world.net.stats.sent,
            messages_dropped: plus(
                self.world.net.stats.dropped_loss,
                self.world.net.stats.dropped_partition,
            ),
            linearizability_steps: self.verdict().1,
            ..self.stats
        }
    }

    /// What the run came to.
    pub open spec fn finalized(self) -> RunView {
        RunView {
            seed: self.cfg.seed,
            config: self.cfg,
            fingerprint: self.world.trace.fingerprint,
            report: self.final_report(),
            verdict: self.verdict().0,
            stats: self.final_stats(),
            incomplete: self.incomplete,
            history: self.history,
            trace: if self.cfg.trace_level != Level::Off {
                Some(self.world.trace.text())
            } else {
                None
            },
        }
    }

    /// The system when the run is over.
    pub open spec fn ended(self) -> ClusterView {
        self.bootstrapped().driven(self.cfg.max_events as nat).check_invariants()
    }

    /// The whole run.
    pub open spec fn outcome(self) -> RunView {
        self.ended().finalized()
    }
}

/// What a run of a configuration comes to.
#[verifier::opaque]
pub open spec fn run_of(cfg: SimConfig) -> RunView {
    ClusterView::made(cfg).outcome()
}

} // verus!
