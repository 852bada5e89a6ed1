//! The simulated world: time, randomness, network, disks, faults, trace.

use crate::count::{bump, count_up};
use crate::simcore::disk::{
    law_synced_data_survives_a_crash, Disk, DiskConfig, DiskStats, DiskView, FileId, Issued, OpId, WriteView,
};
use crate::simcore::faults::{all_ids, ClockSkew, FaultConfig, FaultInjector, FaultStats};
use crate::simcore::net::{NetConfig, NetStats, NetView, Network};
use crate::simcore::rng::Rng;
use crate::simcore::scheduler::{kept, Event, EventId, EventView, FiredView, SchedView, Scheduler};
use crate::simcore::trace::{Fingerprint, Level, RecordView, Trace, TraceView};
use crate::simcore::{Nanos, NodeId};
use vstd::prelude::*;

verus! {

/// Everything needed to construct a run.
#[derive(Clone, Copy, Debug)]
pub struct WorldConfig {
    pub nodes: usize,
    pub seed: u64,
    pub net: NetConfig,
    pub disk: DiskConfig,
    pub faults: FaultConfig,
    pub trace_level: Level,
}

impl Default for WorldConfig {
    fn default() -> (r: WorldConfig)
        ensures
            r == (WorldConfig {
                nodes: 3,
                seed: 0,
                net: NetConfig::standard(),
                disk: DiskConfig::standard(),
                faults: FaultConfig::standard(),
                trace_level: Level::Off,
            }),
    {
        WorldConfig {
            nodes: 3,
            seed: 0,
            net: NetConfig::default(),
            disk: DiskConfig::default(),
            faults: FaultConfig::default(),
            trace_level: Level::Off,
        }
    }
}

/// The simulated world.
///
/// Nodes are deliberately *not* stored here. The driver owns them, so a node
/// handler can borrow itself mutably and the world mutably at the same time.
#[derive(Debug)]
pub struct World {
    pub sched: Scheduler,
    pub rng: Rng,
    pub net: Network,
    pub trace: Trace,
    pub faults: FaultInjector,
    pub disks: Vec<Disk>,
    pub skews: Vec<ClockSkew>,
    pub up: Vec<bool>,
    /// Incremented every time a node restarts. Late completions addressed to
    /// an older incarnation are discarded.
    pub incarnation: Vec<u64>,
    pub seed: u64,
}

/// The simulated world as a mathematical value.
#[verifier::ext_equal]
pub struct WorldView {
    pub sched: SchedView,
    pub rng: Rng,
    pub net: NetView,
    pub trace: TraceView,
    pub faults: FaultInjector,
    pub disks: Seq<DiskView>,
    pub skews: Seq<ClockSkew>,
    pub up: Seq<bool>,
    pub incarnation: Seq<u64>,
    pub seed: u64,
}

/// The views of a list of disks.
pub open spec fn disk_views(ds: Seq<Disk>) -> Seq<DiskView> {
    ds.map_values(|d: Disk| d@)
}

impl View for World {
    type V = WorldView;

    open spec fn view(&self) -> WorldView {
        WorldView {
            sched: self.sched@,
            rng: self.rng,
            net: self.net@,
            trace: self.trace@,
            faults: self.faults,
            disks: disk_views(self.disks@),
            skews: self.skews@,
            up: self.up@,
            incarnation: self.incarnation@,
            seed: self.seed,
        }
    }
}

/// The clocks of the first `n` nodes, and the generator after drawing them.
pub open spec fn clocks(cfg: FaultConfig, rng: Rng, n: nat) -> (Seq<ClockSkew>, Rng)
    decreases n,
{
    if n == 0 {
        (Seq::empty(), rng)
    } else {
        let (s, r) = clocks(cfg, rng, (n - 1) as nat);
        if cfg.enable_clock_skew {
            let (c, q) = ClockSkew::random_of(r, cfg.max_clock_skew);
            (s.push(c), q)
        } else {
            (s.push(ClockSkew { offset: 0, drift_ppm: 0 }), r)
        }
    }
}

/// Whether an event survives the crash of a node: its timers and storage
/// completions do not.
pub open spec fn survives(e: EventView, node: NodeId) -> bool {
    match e {
        EventView::Timer { node: n, .. } => n != node,
        EventView::Storage { node: n, .. } => n != node,
        _ => true,
    }
}

impl WorldView {
    /// A new world.
    pub open spec fn made(cfg: WorldConfig) -> WorldView {
        let (skews, rng) = clocks(cfg.faults, Rng::seeded(cfg.seed), cfg.nodes as nat);
        WorldView {
            sched: SchedView::blank(),
            rng,
            net: NetView::blank(cfg.nodes, cfg.net),
            trace: TraceView::blank(cfg.trace_level),
            faults: FaultInjector { cfg: cfg.faults, stats: FaultStats::zero(), recovered: false },
            disks: Seq::new(cfg.nodes as nat, |i: int| DiskView::blank(cfg.disk)),
            skews,
            up: Seq::new(cfg.nodes as nat, |i: int| true),
            incarnation: Seq::new(cfg.nodes as nat, |i: int| 0u64),
            seed: cfg.seed,
        }
    }

    /// How many nodes there are.
    pub open spec fn nodes(self) -> nat {
        self.up.len()
    }

    /// The same world with its log switched off and emptied.
    pub open spec fn silent(self) -> WorldView {
        WorldView { trace: self.trace.silent(), ..self }
    }

    /// Every node has a disk, a clock and an incarnation.
    pub open spec fn wf(self) -> bool {
        &&& self.disks.len() == self.up.len()
        &&& self.skews.len() == self.up.len()
        &&& self.incarnation.len() == self.up.len()
    }

    /// Whether a node is part of the world.
    pub open spec fn has(self, node: NodeId) -> bool {
        node.0 < self.up.len()
    }

    /// Time as a node believes it to be.
    pub open spec fn node_now(self, node: NodeId) -> Nanos {
        self.skews[node.0 as int].shows(self.sched.now)
    }

    /// The world after a significant event.
    #[verifier::opaque]
    pub open spec fn observe(self, node: Option<NodeId>, tag: Seq<char>, args: Seq<u64>) -> WorldView {
        WorldView { trace: self.trace.observe(self.sched.now, node, tag, args), ..self }
    }

    /// The world after a line was logged.
    #[verifier::opaque]
    pub open spec fn log(
        self,
        level: Level,
        node: Option<NodeId>,
        category: Seq<char>,
        message: Seq<char>,
    ) -> WorldView {
        WorldView {
            trace: self.trace.log(
                RecordView { time: self.sched.now, node, level, category, message },
            ),
            ..self
        }
    }

    /// The world after a message was sent, and how many copies are on their
    /// way. A node that is down sends nothing.
    #[verifier::opaque]
    pub open spec fn send(self, from: NodeId, to: NodeId, payload: Seq<u8>) -> (WorldView, int) {
        if !self.up[from.0 as int] {
            (self, 0)
        } else {
            let s = self.net.send(self.rng, self.sched, from, to, payload);
            (WorldView { net: s.net, rng: s.rng, sched: s.sched, ..self }, s.copies)
        }
    }

    /// Whether an arriving message reaches its receiver.
    #[verifier::opaque]
    pub open spec fn accept_delivery(self, from: NodeId, to: NodeId) -> (WorldView, bool) {
        if !self.up[to.0 as int] {
            (self, false)
        } else {
            let (net, ok) = self.net.accept(from, to);
            (WorldView { net, ..self }, ok)
        }
    }

    /// The world after a timer was set; its event has the id the scheduler was
    /// to hand out next.
    #[verifier::opaque]
    pub open spec fn set_timer(self, node: NodeId, delay: Nanos, timer: u64) -> WorldView {
        WorldView { sched: self.sched.after(delay, EventView::Timer { node, timer }), ..self }
    }

    /// The world after an event was cancelled.
    #[verifier::opaque]
    pub open spec fn cancel(self, id: EventId) -> WorldView {
        WorldView {
            sched: SchedView { cancelled: self.sched.cancelled.insert(id), ..self.sched },
            ..self
        }
    }

    /// The world once an operation was issued on a node's disk: its completion
    /// is scheduled.
    pub open spec fn issued(self, node: NodeId, disk: DiskView, rng: Rng, done: Issued) -> WorldView {
        WorldView {
            disks: self.disks.update(node.0 as int, disk),
            rng,
            sched: self.sched.after(
                done.delay,
                EventView::Storage { node, op: done.op, result: done.result },
            ),
            ..self
        }
    }

    /// The world after a write was issued.
    #[verifier::opaque]
    pub open spec fn disk_write(self, node: NodeId, file: FileId, w: WriteView) -> WorldView {
        let (disk, rng, done) = self.disks[node.0 as int].issue(self.rng, w, file);
        self.issued(node, disk, rng, done)
    }

    /// The write that appending to a file is.
    pub open spec fn appending(self, node: NodeId, file: FileId, bytes: Seq<u8>) -> WriteView {
        WriteView::Data {
            offset: self.disks[node.0 as int].file(file).cache.len() as usize,
            bytes,
        }
    }

    /// The world after a sync was issued.
    #[verifier::opaque]
    pub open spec fn disk_sync(self, node: NodeId, file: FileId) -> WorldView {
        let (disk, rng, done) = self.disks[node.0 as int].sync(self.rng, file);
        self.issued(node, disk, rng, done)
    }

    /// The operation a node's disk hands out next.
    pub open spec fn next_op(self, node: NodeId) -> OpId {
        self.disks[node.0 as int].next_op
    }

    /// The world after a node lost power.
    #[verifier::opaque]
    pub open spec fn crash_node(self, node: NodeId) -> WorldView {
        let i = node.0 as int;
        if !self.up[i] {
            self
        } else {
            let (disk, rng) = self.disks[i].crash(self.rng);
            WorldView {
                disks: self.disks.update(i, disk),
                rng,
                up: self.up.update(i, false),
                incarnation: self.incarnation.update(i, bump(self.incarnation[i])),
                sched: SchedView {
                    queue: kept(self.sched.queue, |e: EventView| survives(e, node)),
                    ..self.sched
                },
                ..self
            }.observe(Some(node), "crash"@, Seq::empty())
        }
    }

    /// The world after a node came back.
    #[verifier::opaque]
    pub open spec fn restart_node(self, node: NodeId) -> WorldView {
        let i = node.0 as int;
        if self.up[i] {
            self
        } else {
            WorldView { up: self.up.update(i, true), ..self }.observe(
                Some(node),
                "restart"@,
                Seq::empty(),
            )
        }
    }

    /// The world after a node's clock was stepped.
    #[verifier::opaque]
    pub open spec fn clock_jump(self, node: NodeId, delta: i64) -> WorldView {
        let i = node.0 as int;
        WorldView {
            skews: self.skews.update(
                i,
                ClockSkew {
                    offset: self.skews[i].offset.wrapping_add(delta),
                    ..self.skews[i]
                },
            ),
            ..self
        }.observe(Some(node), "clockjump"@, seq![delta as u64])
    }
}

/// How many flags are set among the first `n`.
pub open spec fn count_set(flags: Seq<bool>, n: int) -> nat
    decreases n,
{
    if n <= 0 {
        0
    } else {
        count_set(flags, n - 1) + (if flags[n - 1] {
            1nat
        } else {
            0
        })
    }
}

impl World {
    pub fn new(cfg: WorldConfig) -> (r: World)
        ensures
            r@ == WorldView::made(cfg),
            r@.wf(),
            r@.nodes() == cfg.nodes,
    {
        let mut rng = Rng::new(cfg.seed);
        let n: usize = cfg.nodes;
        let mut skews: Vec<ClockSkew> = Vec::new();
        let mut disks: Vec<Disk> = Vec::new();
        let mut up: Vec<bool> = Vec::new();
        let mut incarnation: Vec<u64> = Vec::new();
        let mut i: usize = 0;
        while i < n
            invariant
                i <= n,
                n == cfg.nodes,
                (skews@, rng) == clocks(cfg.faults, Rng::seeded(cfg.seed), i as nat),
                skews@.len() == i,
                disks@.len() == i,
                forall|j: int| 0 <= j < i ==> (#[trigger] disks@[j])@ == DiskView::blank(cfg.disk),
                up@ == Seq::new(i as nat, |j: int| true),
                incarnation@ == Seq::new(i as nat, |j: int| 0u64),
            decreases n - i,
        {
            if cfg.faults.enable_clock_skew {
                skews.push(ClockSkew::random(&mut rng, cfg.faults.max_clock_skew));
            } else {
                skews.push(ClockSkew::default());
            }
            disks.push(Disk::new(cfg.disk));
            up.push(true);
            incarnation.push(0);
            i += 1;
            assert(up@ =~= Seq::new(i as nat, |j: int| true));
            assert(incarnation@ =~= Seq::new(i as nat, |j: int| 0u64));
        }
        let r = World {
            sched: Scheduler::new(),
            net: Network::new(n, cfg.net),
            trace: Trace::new(cfg.trace_level),
            faults: FaultInjector::new(cfg.faults),
            disks,
            skews,
            up,
            incarnation,
            rng,
            seed: cfg.seed,
        };
        assert(r@ =~= WorldView::made(cfg));
        r
    }

    pub fn seed(&self) -> (r: u64)
        ensures
            r == self@.seed,
    {
        self.seed
    }

    pub fn nodes(&self) -> (r: usize)
        ensures
            r == self@.nodes(),
    {
        self.up.len()
    }

    /// The numbers of all nodes.
    pub fn all_nodes(&self) -> (r: Vec<NodeId>)
        ensures
            r@ == all_ids(self@.nodes()),
    {
        let mut out: Vec<NodeId> = Vec::new();
        let mut i: usize = 0;
        while i < self.up.len()
            invariant
                i <= self.up@.len(),
                out@ == all_ids(i as nat),
            decreases self.up@.len() - i,
        {
            out.push(NodeId(i as u32));
            i += 1;
            assert(out@ =~= all_ids(i as nat));
        }
        out
    }

    /// True simulation time.
    pub fn now(&self) -> (r: Nanos)
        ensures
            r == self@.sched.now,
    {
        self.sched.now()
    }

    /// Time as `node` believes it to be, including its skew and drift. This is
    /// the only clock a node is ever allowed to read.
    pub fn node_now(&self, node: NodeId) -> (r: Nanos)
        requires
            self@.wf(),
            self@.has(node),
        ensures
            r == self@.node_now(node),
    {
        self.skews[node.idx()].apply(self.sched.now())
    }

    pub fn is_up(&self, node: NodeId) -> (r: bool)
        requires
            self@.has(node),
        ensures
            r == self@.up[node.0 as int],
    {
        self.up[node.idx()]
    }

    pub fn up_count(&self) -> (r: usize)
        ensures
            r == count_set(self@.up, self@.up.len() as int),
    {
        let mut count: usize = 0;
        let mut i: usize = 0;
        while i < self.up.len()
            invariant
                i <= self.up@.len(),
                count <= i,
                count == count_set(self.up@, i as int),
            decreases self.up@.len() - i,
        {
            if self.up[i] {
                count += 1;
            }
            i += 1;
        }
        count
    }

    pub fn up_flags(&self) -> (r: &[bool])
        ensures
            r@ == self@.up,
    {
        self.up.as_slice()
    }

    pub fn incarnation(&self, node: NodeId) -> (r: u64)
        requires
            self@.wf(),
            self@.has(node),
        ensures
            r == self@.incarnation[node.0 as int],
    {
        self.incarnation[node.idx()]
    }

    pub fn observe(&mut self, node: Option<NodeId>, tag: &'static str, args: &[u64])
        ensures
            final(self)@ == old(self)@.observe(node, tag@, args@),
            final(self)@.wf() == old(self)@.wf(),
            final(self)@.nodes() == old(self)@.nodes(),
    {
        proof {
            reveal(WorldView::observe);
        }
        let now: u64 = self.sched.now();
        self.trace.observe(now, node, tag, args);
    }

    pub fn log(&mut self, level: Level, node: Option<NodeId>, cat: &'static str, msg: &str)
        ensures
            final(self)@ == old(self)@.log(level, node, cat@, msg@),
            final(self)@.wf() == old(self)@.wf(),
            final(self)@.nodes() == old(self)@.nodes(),
    {
        proof {
            reveal(WorldView::log);
        }
        let now: u64 = self.sched.now();
        self.trace.log(level, now, node, cat, msg);
    }

    pub fn fingerprint(&self) -> (r: Fingerprint)
        ensures
            r == self@.trace.fingerprint,
    {
        self.trace.fingerprint()
    }

    // ---- network ---------------------------------------------------------

    /// Send bytes. Silently does nothing if the sender is down -- a crashed
    /// node cannot transmit.
    pub fn send(&mut self, from: NodeId, to: NodeId, payload: &[u8]) -> (r: usize)
        requires
            old(self)@.has(from),
        ensures
            (final(self)@, r as int) == old(self)@.send(from, to, payload@),
            final(self)@.wf() == old(self)@.wf(),
            final(self)@.nodes() == old(self)@.nodes(),
    {
        proof {
            reveal(WorldView::send);
        }
        if !self.up[from.idx()] {
            return 0;
        }
        self.net.send(&mut self.rng, &mut self.sched, from, to, payload)
    }

    /// Whether a message that has arrived should be handed to the receiver.
    pub fn accept_delivery(&mut self, from: NodeId, to: NodeId) -> (r: bool)
        requires
            old(self)@.has(to),
        ensures
            (final(self)@, r) == old(self)@.accept_delivery(from, to),
            final(self)@.wf() == old(self)@.wf(),
            final(self)@.nodes() == old(self)@.nodes(),
    {
        proof {
            reveal(WorldView::accept_delivery);
        }
        if !self.up[to.idx()] {
            return false;
        }
        self.net.accept_delivery(from, to)
    }

    // ---- timers ----------------------------------------------------------

    pub fn set_timer(&mut self, node: NodeId, delay: Nanos, timer: u64) -> (r: EventId)
        ensures
            r == old(self)@.sched.next_id,
            final(self)@ == old(self)@.set_timer(node, delay, timer),
            final(self)@.wf() == old(self)@.wf(),
            final(self)@.nodes() == old(self)@.nodes(),
    {
        proof {
            reveal(WorldView::set_timer);
        }
        self.sched.after(delay, Event::Timer { node, timer })
    }

    pub fn cancel(&mut self, id: EventId)
        ensures
            final(self)@ == old(self)@.cancel(id),
            final(self)@.wf() == old(self)@.wf(),
            final(self)@.nodes() == old(self)@.nodes(),
    {
        proof {
            reveal(WorldView::cancel);
        }
        self.sched.cancel(id);
    }

    // ---- storage ---------------------------------------------------------

    /// Append bytes to a node's file. The completion event fires later; the
    /// data is *not* durable until a subsequent `sync` completes.
    pub fn disk_append(&mut self, node: NodeId, file: FileId, bytes: &[u8]) -> (r: OpId)
        requires
            old(self)@.wf(),
            old(self)@.has(node),
        ensures
            r == old(self)@.next_op(node),
            final(self)@ == old(self)@.disk_write(
                node,
                file,
                old(self)@.appending(node, file, bytes@),
            ),
            final(self)@.wf() == old(self)@.wf(),
            final(self)@.nodes() == old(self)@.nodes(),
    {
        proof {
            reveal(WorldView::disk_write);
        }
        let done = self.disks[node.idx()].append(&mut self.rng, file, bytes);
        self.complete_storage(node, done);
        assert(self@ =~= old(self)@.disk_write(
            node,
            file,
            old(self)@.appending(node, file, bytes@),
        ));
        done.op
    }

    pub fn disk_write_at(&mut self, node: NodeId, file: FileId, offset: usize, bytes: &[u8]) -> (r:
        OpId)
        requires
            old(self)@.wf(),
            old(self)@.has(node),
        ensures
            r == old(self)@.next_op(node),
            final(self)@ == old(self)@.disk_write(
                node,
                file,
                WriteView::Data { offset, bytes: bytes@ },
            ),
            final(self)@.wf() == old(self)@.wf(),
            final(self)@.nodes() == old(self)@.nodes(),
    {
        proof {
            reveal(WorldView::disk_write);
        }
        let done = self.disks[node.idx()].write_at(&mut self.rng, file, offset, bytes);
        self.complete_storage(node, done);
        assert(self@ =~= old(self)@.disk_write(
            node,
            file,
            WriteView::Data { offset, bytes: bytes@ },
        ));
        done.op
    }

    pub fn disk_set_len(&mut self, node: NodeId, file: FileId, len: usize) -> (r: OpId)
        requires
            old(self)@.wf(),
            old(self)@.has(node),
        ensures
            r == old(self)@.next_op(node),
            final(self)@ == old(self)@.disk_write(node, file, WriteView::SetLen(len)),
            final(self)@.wf() == old(self)@.wf(),
            final(self)@.nodes() == old(self)@.nodes(),
    {
        proof {
            reveal(WorldView::disk_write);
        }
        let done = self.disks[node.idx()].set_len(&mut self.rng, file, len);
        self.complete_storage(node, done);
        assert(self@ =~= old(self)@.disk_write(node, file, WriteView::SetLen(len)));
        done.op
    }

    pub fn disk_sync(&mut self, node: NodeId, file: FileId) -> (r: OpId)
        requires
            old(self)@.wf(),
            old(self)@.has(node),
        ensures
            r == old(self)@.next_op(node),
            final(self)@ == old(self)@.disk_sync(node, file),
            final(self)@.wf() == old(self)@.wf(),
            final(self)@.nodes() == old(self)@.nodes(),
    {
        proof {
            reveal(WorldView::disk_sync);
        }
        let done = self.disks[node.idx()].sync(&mut self.rng, file);
        self.complete_storage(node, done);
        assert(self@ =~= old(self)@.disk_sync(node, file));
        done.op
    }

    fn complete_storage(&mut self, node: NodeId, done: Issued)
        ensures
            final(self)@ == (WorldView {
                sched: old(self)@.sched.after(
                    done.delay,
                    EventView::Storage { node, op: done.op, result: done.result },
                ),
                ..old(self)@
            }),
            final(self)@.wf() == old(self)@.wf(),
            final(self)@.nodes() == old(self)@.nodes(),
    {
        self.sched.after(done.delay, Event::Storage { node, op: done.op, result: done.result });
    }

    /// Read a file as the running node sees it. Used at startup for recovery.
    pub fn disk_read(&self, node: NodeId, file: FileId) -> (r: Vec<u8>)
        requires
            self@.wf(),
            self@.has(node),
        ensures
            r@ == self@.disks[node.0 as int].file(file).cache,
    {
        self.disks[node.idx()].read_all(file)
    }

    pub fn disk_len(&self, node: NodeId, file: FileId) -> (r: usize)
        requires
            self@.wf(),
            self@.has(node),
        ensures
            r == self@.disks[node.0 as int].file(file).cache.len(),
    {
        self.disks[node.idx()].len(file)
    }

    /// The crash-survivable image. Checkers only -- never a simulated node.
    pub fn durable_image(&self, node: NodeId, file: FileId) -> (r: Vec<u8>)
        requires
            self@.wf(),
            self@.has(node),
        ensures
            r@ == self@.disks[node.0 as int].file(file).durable,
    {
        self.disks[node.idx()].durable_image(file)
    }

    pub fn disk_stats(&self, node: NodeId) -> (r: DiskStats)
        requires
            self@.wf(),
            self@.has(node),
        ensures
            r == self@.disks[node.0 as int].stats,
    {
        self.disks[node.idx()].stats()
    }

    /// Whether a node holds writes of a file that no sync covers.
    pub fn has_unsynced(&self, node: NodeId, file: FileId) -> (r: bool)
        requires
            self@.wf(),
            self@.has(node),
        ensures
            r == (self@.disks[node.0 as int].file(file).pending.len() > 0),
    {
        self.disks[node.idx()].has_unsynced(file)
    }

    // ---- lifecycle -------------------------------------------------------

    /// Power loss on one node: unsynced writes are resolved by the disk model,
    /// and every event still in flight for that node is discarded. Messages
    /// already on the wire are *not* discarded -- they arrive and are dropped
    /// on delivery, which is what happens on a real network.
    pub fn crash_node(&mut self, node: NodeId)
        requires
            old(self)@.wf(),
            old(self)@.has(node),
        ensures
            final(self)@ == old(self)@.crash_node(node),
            final(self)@.wf() == old(self)@.wf(),
            final(self)@.nodes() == old(self)@.nodes(),
    {
        proof {
            reveal(WorldView::crash_node);
            reveal(WorldView::observe);
        }
        let i: usize = node.idx();
        if !self.up[i] {
            return;
        }
        self.disks[i].crash(&mut self.rng);
        self.up[i] = false;
        self.incarnation[i] = count_up(self.incarnation[i]);
        let keep = |e: &Event| -> (b: bool)
            ensures
                b == survives(e@, node),
            {
                match e {
                    Event::Timer { node: n, .. } => *n != node,
                    Event::Storage { node: n, .. } => *n != node,
                    _ => true,
                }
            };
        let ghost q = self.sched@.queue;
        let ghost pred = |e: EventView| survives(e, node);
        self.sched.retain(keep);
        proof {
            assert(self.sched@.queue == kept(q, pred));
        }
        self.observe(Some(node), "crash", &[]);
        assert(self@ =~= old(self)@.crash_node(node));
    }

    pub fn restart_node(&mut self, node: NodeId)
        requires
            old(self)@.wf(),
            old(self)@.has(node),
        ensures
            final(self)@ == old(self)@.restart_node(node),
            final(self)@.wf() == old(self)@.wf(),
            final(self)@.nodes() == old(self)@.nodes(),
    {
        proof {
            reveal(WorldView::restart_node);
            reveal(WorldView::observe);
        }
        if self.up[node.idx()] {
            return;
        }
        self.up[node.idx()] = true;
        self.observe(Some(node), "restart", &[]);
        assert(self@ =~= old(self)@.restart_node(node));
    }

    pub fn clock_jump(&mut self, node: NodeId, delta: i64)
        requires
            old(self)@.wf(),
            old(self)@.has(node),
        ensures
            final(self)@ == old(self)@.clock_jump(node, delta),
            final(self)@.wf() == old(self)@.wf(),
            final(self)@.nodes() == old(self)@.nodes(),
    {
        proof {
            reveal(WorldView::clock_jump);
            reveal(WorldView::observe);
        }
        let i: usize = node.idx();
        let mut skew = self.skews[i];
        skew.offset = skew.offset.wrapping_add(delta);
        self.skews[i] = skew;
        let args: [u64; 1] = [delta as u64];
        assert(args@ =~= seq![delta as u64]);
        self.observe(Some(node), "clockjump", &args);
        assert(self@ =~= old(self)@.clock_jump(node, delta));
    }

    pub fn clock_skew(&self, node: NodeId) -> (r: ClockSkew)
        requires
            self@.wf(),
            self@.has(node),
        ensures
            r == self@.skews[node.0 as int],
    {
        self.skews[node.idx()]
    }

    pub fn net_stats(&self) -> (r: NetStats)
        ensures
            r == self@.net.stats,
    {
        self.net.stats()
    }
}

// ---- what the world promises ---------------------------------------------

/// A node that is down sends nothing and receives nothing.
pub proof fn law_crashed_nodes_are_silent(w: WorldView, node: NodeId, other: NodeId, payload: Seq<u8>)
    requires
        w.wf(),
        w.has(node),
        w.up[node.0 as int],
    ensures
        ({
            let c = w.crash_node(node);
            &&& c.send(node, other, payload) == (c, 0int)
            &&& c.accept_delivery(other, node) == (c, false)
            &&& c.incarnation[node.0 as int] == bump(w.incarnation[node.0 as int])
            &&& c.restart_node(node).up[node.0 as int]
            &&& c.restart_node(node).incarnation == c.incarnation
        }),
{
    reveal(WorldView::crash_node);
    reveal(WorldView::restart_node);
    reveal(WorldView::send);
    reveal(WorldView::accept_delivery);
    reveal(WorldView::observe);
}

proof fn lemma_kept(q: Seq<FiredView>, p: spec_fn(EventView) -> bool)
    ensures
        forall|i: int|
            0 <= i < kept(q, p).len() ==> p((#[trigger] kept(q, p)[i]).event) && q.contains(
                kept(q, p)[i],
            ),
        forall|i: int|
            0 <= i < q.len() && p((#[trigger] q[i]).event) ==> kept(q, p).contains(q[i]),
    decreases q.len(),
{
    if q.len() > 0 {
        let d = q.drop_last();
        lemma_kept(d, p);
        let (a, b) = (kept(d, p), kept(q, p));
        assert forall|i: int| 0 <= i < b.len() implies p((#[trigger] b[i]).event) && q.contains(
            b[i],
        ) by {
            if i < a.len() {
                assert(b[i] == a[i]);
                let j = choose|j: int| 0 <= j < d.len() && d[j] == a[i];
                assert(q[j] == b[i]);
            } else {
                assert(q[q.len() - 1] == b[i]);
            }
        }
        assert forall|i: int| 0 <= i < q.len() && p((#[trigger] q[i]).event) implies b.contains(
            q[i],
        ) by {
            if i < d.len() {
                assert(d[i] == q[i]);
                let j = choose|j: int| 0 <= j < a.len() && a[j] == d[i];
                assert(b[j] == q[i]);
            } else {
                assert(b[b.len() - 1] == q[i]);
            }
        }
    }
}

/// A crash discards exactly the node's own timers and storage completions:
/// every other event stays queued.
pub proof fn law_crash_discards_own_events(w: WorldView, node: NodeId)
    requires
        w.wf(),
        w.has(node),
        w.up[node.0 as int],
    ensures
        ({
            let q = w.crash_node(node).sched.queue;
            &&& forall|i: int| 0 <= i < q.len() ==> survives((#[trigger] q[i]).event, node)
            &&& forall|i: int|
                0 <= i < w.sched.queue.len() && survives((#[trigger] w.sched.queue[i]).event, node)
                    ==> q.contains(w.sched.queue[i])
        }),
{
    reveal(WorldView::crash_node);
    reveal(WorldView::observe);
    lemma_kept(w.sched.queue, |e: EventView| survives(e, node));
}

/// What a node synced, its disk still holds after power loss.
pub proof fn law_synced_survives_power_loss(w: WorldView, node: NodeId, file: FileId)
    requires
        w.wf(),
        w.has(node),
        w.disks[node.0 as int].wf(),
        w.disks[node.0 as int].file(file).pending.len() == 0,
    ensures
        w.crash_node(node).disks[node.0 as int].file(file).cache == w.disks[node.0 as int].file(
            file,
        ).cache,
{
    reveal(WorldView::crash_node);
    reveal(WorldView::observe);
    law_synced_data_survives_a_crash(w.disks[node.0 as int], w.rng, file);
}

} // verus!
