//! The boundary between an application and the world it runs in.
//!
//! A node under test never touches [`World`] directly. It is handed an [`Io`],
//! through which it can read its own clock, set timers, send bytes, and write to
//! its own disk -- and nothing else. It cannot see the true time, the other
//! nodes' state, whether a peer is up, or whether the network is partitioned.
//!
//! That restriction is the reason the tests mean anything: a node that can only
//! observe what a real node could observe cannot accidentally cheat, and code
//! written against this trait is the same code that would run against a real
//! kernel.

pub mod clock;
pub mod effect;
pub mod io_laws;
pub mod network;
pub mod storage;

pub use self::clock::{Clock, Deadline, TimerHandle, TimerTag};
pub use self::network::{peers, quorum, Net};
pub use self::storage::{
    snapshot_file, Completion, PendingOps, Storage, FILE_SNAPSHOT_A, FILE_SNAPSHOT_B, FILE_WAL,
};

use crate::sim_io::effect::{Effect, Environment, IoEnv, IoState};
use crate::simcore::disk::{applied, law_write, FileId, OpId, WriteView};
use crate::simcore::trace::Level;
use crate::simcore::world::WorldView;
use crate::simcore::{Nanos, NodeId, World};
use vstd::prelude::*;

verus! {

/// Everything a node is allowed to do to the outside world.
///
/// Object-safe on purpose, so the same code can be driven by the simulator here
/// or by a real event loop elsewhere.
pub trait Io: Clock + Net + Storage {
    /// Whether diagnostics of a level are kept.
    spec fn traces(&self, level: Level) -> bool;

    fn trace_enabled(&self, level: Level) -> (r: bool)
        requires
            self.valid(),
        ensures
            r == self.traces(level),
    ;

    /// Human-readable diagnostics. Filtered by level.
    fn trace(&mut self, level: Level, category: &'static str, message: String)
        requires
            old(self).valid(),
        ensures
            final(self).valid(),
            final(self).origin() == old(self).origin(),
            final(self).state() == old(self).state().trace(level, category@, message@),
    ;

    /// Record a behaviour-defining event into the determinism fingerprint.
    /// Never filtered, so it must only be called for real state changes.
    fn observe(&mut self, tag: &'static str, args: &[u64])
        requires
            old(self).valid(),
        ensures
            final(self).valid(),
            final(self).origin() == old(self).origin(),
            final(self).state() == old(self).state().observe(tag@, args@),
    ;

    /// Deterministic randomness for protocol jitter.
    fn rand_range(&mut self, lo: u64, hi: u64) -> (r: u64)
        requires
            old(self).valid(),
        ensures
            final(self).valid(),
            final(self).origin() == old(self).origin(),
            r == old(self).state().draw(lo, hi),
            final(self).state() == old(self).state().did(Effect::Draw { lo, hi }),
    ;
}

/// What one effect of a node does to the simulated world.
#[verifier::opaque]
pub open spec fn enact(w: WorldView, node: NodeId, e: Effect) -> WorldView {
    match e {
        Effect::SetTimer { delay, tag } => w.set_timer(node, delay, tag),
        Effect::CancelTimer { handle } => w.cancel(handle),
        Effect::Send { to, payload } => if to == node {
            w
        } else {
            w.send(node, to, payload).0
        },
        Effect::Append { file, bytes } => w.disk_write(node, file, w.appending(node, file, bytes)),
        Effect::WriteAt { file, offset, bytes } => w.disk_write(
            node,
            file,
            WriteView::Data { offset, bytes },
        ),
        Effect::SetLen { file, len } => w.disk_write(node, file, WriteView::SetLen(len)),
        Effect::Sync { file } => w.disk_sync(node, file),
        Effect::Trace { level, category, message } => w.log(level, Some(node), category, message),
        Effect::Observe { label, args } => w.observe(Some(node), label, args),
        Effect::Draw { lo, hi } => WorldView { rng: w.rng.range_of(lo, hi).1, ..w },
    }
}

/// The simulated world after a node did all of these, in order.
#[verifier::opaque]
pub open spec fn enact_all(w: WorldView, node: NodeId, log: Seq<Effect>) -> WorldView
    decreases log.len(),
{
    if log.len() == 0 {
        w
    } else {
        enact(enact_all(w, node, log.drop_last()), node, log.last())
    }
}

/// What a node does, it does alike in a world that keeps its log and in one
/// that keeps none.
pub proof fn lemma_enact_silent(w: WorldView, node: NodeId, e: Effect)
    ensures
        enact(w.silent(), node, e) == enact(w, node, e).silent(),
{
    reveal(enact);
    reveal(WorldView::observe);
    reveal(WorldView::log);
    reveal(WorldView::send);
    reveal(WorldView::set_timer);
    reveal(WorldView::cancel);
    reveal(WorldView::disk_write);
    reveal(WorldView::disk_sync);
    assert(enact(w.silent(), node, e) =~= enact(w, node, e).silent());
}

/// The same of a list of effects.
pub proof fn lemma_enact_all_silent(w: WorldView, node: NodeId, log: Seq<Effect>)
    ensures
        enact_all(w.silent(), node, log) == enact_all(w, node, log).silent(),
    decreases log.len(),
{
    reveal(enact_all);
    if log.len() > 0 {
        lemma_enact_all_silent(w, node, log.drop_last());
        lemma_enact_silent(enact_all(w, node, log.drop_last()), node, log.last());
    }
}

/// How the simulated world answers a node.
#[verifier::opaque]
pub open spec fn sim_env(world: WorldView, node: NodeId) -> IoEnv {
    let w = world.silent();
    IoEnv {
        me: node,
        cluster_size: w.nodes(),
        now: |log: Seq<Effect>| enact_all(w, node, log).node_now(node),
        timer: |log: Seq<Effect>| enact_all(w, node, log).sched.next_id,
        op: |log: Seq<Effect>| enact_all(w, node, log).next_op(node),
        file: |log: Seq<Effect>, file: FileId|
            enact_all(w, node, log).disks[node.0 as int].file(file).cache,
        draw: |log: Seq<Effect>, lo: u64, hi: u64| enact_all(w, node, log).rng.range_of(lo, hi).0,
    }
}

/// The simulated world as one node sees it before it has done anything.
pub open spec fn sim_state(w: WorldView, node: NodeId) -> IoState {
    IoState { env: sim_env(w, node), log: Seq::empty() }
}

/// No effect changes how many nodes there are.
pub proof fn lemma_enact_shape(w: WorldView, node: NodeId, e: Effect)
    requires
        w.wf(),
        w.has(node),
    ensures
        enact(w, node, e).wf(),
        enact(w, node, e).nodes() == w.nodes(),
        enact(w, node, e).up == w.up,
        enact(w, node, e).sched.now == w.sched.now,
        enact(w, node, e).faults == w.faults,
        enact(w, node, e).incarnation == w.incarnation,
        enact(w, node, e).net.blocked == w.net.blocked,
        enact(w, node, e).net.slow == w.net.slow,
{
    reveal(enact);
    reveal(WorldView::observe);
    reveal(WorldView::log);
    reveal(WorldView::send);
    reveal(WorldView::set_timer);
    reveal(WorldView::cancel);
    reveal(WorldView::disk_write);
    reveal(WorldView::disk_sync);
}

/// No list of effects changes how many nodes there are.
pub proof fn lemma_enact_all_shape(w: WorldView, node: NodeId, log: Seq<Effect>)
    requires
        w.wf(),
        w.has(node),
    ensures
        enact_all(w, node, log).wf(),
        enact_all(w, node, log).nodes() == w.nodes(),
        enact_all(w, node, log).up == w.up,
        enact_all(w, node, log).sched.now == w.sched.now,
        enact_all(w, node, log).faults == w.faults,
        enact_all(w, node, log).incarnation == w.incarnation,
        enact_all(w, node, log).net.blocked == w.net.blocked,
        enact_all(w, node, log).net.slow == w.net.slow,
    decreases log.len(),
{
    reveal(enact_all);
    if log.len() > 0 {
        lemma_enact_all_shape(w, node, log.drop_last());
        lemma_enact_shape(enact_all(w, node, log.drop_last()), node, log.last());
    }
}

/// The simulator's implementation of [`Io`], bound to one node at a time. It
/// holds the world for as long as nodes act on it.
pub struct SimIo {
    pub world: World,
    pub node: NodeId,
    /// The world when the node was bound.
    pub start: Ghost<WorldView>,
    /// What the node has done since.
    pub log: Ghost<Seq<Effect>>,
}

impl Environment for SimIo {
    open spec fn state(&self) -> IoState {
        IoState { env: sim_env(self.start@, self.node), log: self.log@ }
    }

    open spec fn origin(&self) -> (WorldView, NodeId) {
        (self.start@, self.node)
    }

    open spec fn valid(&self) -> bool {
        &&& self.start@.wf()
        &&& self.start@.has(self.node)
        &&& self.world@ == enact_all(self.start@, self.node, self.log@)
    }
}

impl SimIo {
    pub fn new(world: World, node: NodeId) -> (r: SimIo)
        requires
            world@.wf(),
            world@.has(node),
        ensures
            r.valid(),
            r.node == node,
            r.world == world,
            r.state() == sim_state(world@, node),
    {
        let ghost w = world@;
        proof {
            reveal(enact_all);
        }
        SimIo { world, node, start: Ghost(w), log: Ghost(Seq::empty()) }
    }

    /// Hold a world before any node is bound to it.
    pub fn unbound(world: World) -> (r: SimIo)
        ensures
            r.world == world,
    {
        let ghost w = world@;
        SimIo { world, node: NodeId(0), start: Ghost(w), log: Ghost(Seq::empty()) }
    }

    /// Bind the world to another node.
    pub fn rebind(&mut self, node: NodeId)
        requires
            old(self).world@.wf(),
            old(self).world@.has(node),
        ensures
            final(self).valid(),
            final(self).origin() == (old(self).world@, node),
            final(self).node == node,
            final(self).world == old(self).world,
            final(self).state() == sim_state(old(self).world@, node),
    {
        proof {
            reveal(enact_all);
        }
        self.node = node;
        self.start = Ghost(self.world@);
        self.log = Ghost(Seq::empty());
    }

    /// Give the world back.
    pub fn into_world(self) -> (r: World)
        ensures
            r == self.world,
    {
        self.world
    }

    pub fn node(&self) -> (r: NodeId)
        ensures
            r == self.node,
    {
        self.node
    }

    /// True simulation time. Not exposed through [`Io`]: nodes must not see it.
    pub fn true_now(&self) -> (r: Nanos)
        ensures
            r == self.world@.sched.now,
    {
        self.world.now()
    }

    proof fn lemma_answers(&self)
        requires
            self.valid(),
        ensures
            enact_all(self.start@.silent(), self.node, self.log@) == self.world@.silent(),
    {
        lemma_enact_all_silent(self.start@, self.node, self.log@);
    }

    /// Note an effect that was just carried out on the world.
    fn note(&mut self, Ghost(e): Ghost<Effect>, Ghost(before): Ghost<SimIo>)
        requires
            before.valid(),
            old(self).start == before.start,
            old(self).node == before.node,
            old(self).log == before.log,
            old(self).world@ == enact(before.world@, before.node, e),
        ensures
            final(self).valid(),
            final(self).origin() == old(self).origin(),
            final(self).world == old(self).world,
            final(self).node == old(self).node,
            final(self).state() == before.state().did(e),
    {
        proof {
            reveal(enact_all);
            self.log@ = self.log@.push(e);
            assert(self.log@.drop_last() =~= before.log@);
        }
    }
}

impl Clock for SimIo {
    fn now(&self) -> (r: Nanos) {
        proof {
            reveal(sim_env);
            self.lemma_answers();
            lemma_enact_all_shape(self.start@, self.node, self.log@);
        }
        self.world.node_now(self.node)
    }

    fn set_timer(&mut self, delay: Nanos, tag: TimerTag) -> (r: TimerHandle) {
        let ghost before = *self;
        // The delay is measured on the node's own (drifting) clock; the drift
        // is parts-per-million, so scheduling it against true time is within
        // the noise of the latency model and keeps the queue in one time base.
        let id: u64 = self.world.set_timer(self.node, delay, tag);
        proof {
            reveal(enact);
            reveal(sim_env);
            before.lemma_answers();
        }
        self.note(Ghost(Effect::SetTimer { delay, tag }), Ghost(before));
        TimerHandle(id)
    }

    fn cancel_timer(&mut self, handle: TimerHandle) {
        let ghost before = *self;
        self.world.cancel(handle.0);
        proof {
            reveal(enact);
            reveal(sim_env);
            before.lemma_answers();
        }
        self.note(Ghost(Effect::CancelTimer { handle: handle.0 }), Ghost(before));
    }
}

impl Net for SimIo {
    fn me(&self) -> (r: NodeId) {
        proof {
            reveal(sim_env);
            self.lemma_answers();
        }
        self.node
    }

    fn cluster_size(&self) -> (r: usize) {
        proof {
            reveal(sim_env);
            self.lemma_answers();
            lemma_enact_all_shape(self.start@, self.node, self.log@);
        }
        self.world.nodes()
    }

    fn send(&mut self, to: NodeId, payload: &[u8]) {
        let ghost before = *self;
        proof {
            lemma_enact_all_shape(self.start@, self.node, self.log@);
        }
        if to != self.node {
            self.world.send(self.node, to, payload);
        }
        proof {
            reveal(enact);
            reveal(sim_env);
            before.lemma_answers();
        }
        self.note(Ghost(Effect::Send { to, payload: payload@ }), Ghost(before));
    }
}

impl Storage for SimIo {
    fn append(&mut self, file: FileId, bytes: &[u8]) -> (r: OpId) {
        let ghost before = *self;
        proof {
            lemma_enact_all_shape(self.start@, self.node, self.log@);
        }
        let op: u64 = self.world.disk_append(self.node, file, bytes);
        proof {
            reveal(enact);
            reveal(sim_env);
            before.lemma_answers();
        }
        self.note(Ghost(Effect::Append { file, bytes: bytes@ }), Ghost(before));
        op
    }

    fn write_at(&mut self, file: FileId, offset: usize, bytes: &[u8]) -> (r: OpId) {
        let ghost before = *self;
        proof {
            lemma_enact_all_shape(self.start@, self.node, self.log@);
        }
        let op: u64 = self.world.disk_write_at(self.node, file, offset, bytes);
        proof {
            reveal(enact);
            reveal(sim_env);
            before.lemma_answers();
        }
        self.note(Ghost(Effect::WriteAt { file, offset, bytes: bytes@ }), Ghost(before));
        op
    }

    fn set_len(&mut self, file: FileId, len: usize) -> (r: OpId) {
        let ghost before = *self;
        proof {
            lemma_enact_all_shape(self.start@, self.node, self.log@);
        }
        let op: u64 = self.world.disk_set_len(self.node, file, len);
        proof {
            reveal(enact);
            reveal(sim_env);
            before.lemma_answers();
        }
        self.note(Ghost(Effect::SetLen { file, len }), Ghost(before));
        op
    }

    fn sync(&mut self, file: FileId) -> (r: OpId) {
        let ghost before = *self;
        proof {
            lemma_enact_all_shape(self.start@, self.node, self.log@);
        }
        let op: u64 = self.world.disk_sync(self.node, file);
        proof {
            reveal(enact);
            reveal(sim_env);
            before.lemma_answers();
        }
        self.note(Ghost(Effect::Sync { file }), Ghost(before));
        op
    }

    fn read_all(&self, file: FileId) -> (r: Vec<u8>) {
        proof {
            reveal(sim_env);
            self.lemma_answers();
            lemma_enact_all_shape(self.start@, self.node, self.log@);
        }
        self.world.disk_read(self.node, file)
    }

    fn size(&self, file: FileId) -> (r: usize) {
        proof {
            reveal(sim_env);
            self.lemma_answers();
            lemma_enact_all_shape(self.start@, self.node, self.log@);
        }
        self.world.disk_len(self.node, file)
    }
}

impl Io for SimIo {
    open spec fn traces(&self, level: Level) -> bool {
        self.world@.trace.enabled(level)
    }

    fn trace_enabled(&self, level: Level) -> (r: bool) {
        self.world.trace.enabled(level)
    }

    fn trace(&mut self, level: Level, category: &'static str, message: String) {
        let ghost before = *self;
        self.world.log(level, Some(self.node), category, message.as_str());
        proof {
            reveal(enact);
            reveal(sim_env);
            before.lemma_answers();
        }
        self.note(
            Ghost(Effect::Trace { level, category: category@, message: message@ }),
            Ghost(before),
        );
    }

    fn observe(&mut self, tag: &'static str, args: &[u64]) {
        let ghost before = *self;
        self.world.observe(Some(self.node), tag, args);
        proof {
            reveal(enact);
            reveal(sim_env);
            before.lemma_answers();
        }
        self.note(Ghost(Effect::Observe { label: tag@, args: args@ }), Ghost(before));
    }

    fn rand_range(&mut self, lo: u64, hi: u64) -> (r: u64) {
        let ghost before = *self;
        let v: u64 = self.world.rng.range(lo, hi);
        proof {
            reveal(enact);
            reveal(sim_env);
            before.lemma_answers();
        }
        self.note(Ghost(Effect::Draw { lo, hi }), Ghost(before));
        v
    }
}

// ---- what the boundary promises ------------------------------------------

/// What a node writes it reads back at once, before any of it is durable.
pub proof fn law_a_node_sees_its_own_writes(w: WorldView, node: NodeId, file: FileId, bytes: Seq<u8>)
    requires
        w.wf(),
        w.has(node),
        w.disks[node.0 as int].wf(),
        w.disks[node.0 as int].file(file).cache.len() + bytes.len() <= usize::MAX,
    ensures
        ({
            let (old_file, v) = (
                w.disks[node.0 as int].file(file),
                enact(w, node, Effect::Append { file, bytes }),
            );
            let new_file = v.disks[node.0 as int].file(file);
            &&& new_file.durable == old_file.durable
            &&& new_file.cache == old_file.cache + bytes || new_file == old_file
        }),
{
    reveal(enact);
    reveal(WorldView::disk_write);
    let d = w.disks[node.0 as int];
    let write = w.appending(node, file, bytes);
    law_write(d, w.rng, write, file);
    let c = d.file(file).cache;
    assert(applied(c, write) =~= c + bytes);
}

/// A message to oneself goes nowhere.
pub proof fn law_self_sends_are_dropped(w: WorldView, node: NodeId, payload: Seq<u8>)
    ensures
        enact(w, node, Effect::Send { to: node, payload }) == w,
{
    reveal(enact);
}

} // verus!
