//! What a node does to the outside world, as a mathematical value.
//!
//! A handler of a node is a function of the node's state and of what the world
//! answers. The answers are given by the environment, the effects are listed in
//! the order they happened; so what a handler does can be stated exactly
//! without saying what is on the other side.

use crate::simcore::disk::FileId;
use crate::simcore::trace::Level;
use crate::simcore::world::WorldView;
use crate::simcore::NodeId;
use vstd::prelude::*;

verus! {

/// One thing a node did.
pub enum Effect {
    SetTimer { delay: u64, tag: u64 },
    CancelTimer { handle: u64 },
    Send { to: NodeId, payload: Seq<u8> },
    Append { file: FileId, bytes: Seq<u8> },
    WriteAt { file: FileId, offset: usize, bytes: Seq<u8> },
    SetLen { file: FileId, len: usize },
    Sync { file: FileId },
    Trace { level: Level, category: Seq<char>, message: Seq<char> },
    Observe { label: Seq<char>, args: Seq<u64> },
    Draw { lo: u64, hi: u64 },
}

/// How the world answers, given what a node has done so far. Whether its
/// diagnostics are kept is no part of that: no answer may depend on it.
pub struct IoEnv {
    pub me: NodeId,
    pub cluster_size: nat,
    /// The node's clock.
    pub now: spec_fn(Seq<Effect>) -> u64,
    /// The handle of the next timer.
    pub timer: spec_fn(Seq<Effect>) -> u64,
    /// The id of the next storage operation.
    pub op: spec_fn(Seq<Effect>) -> u64,
    /// What a file holds.
    pub file: spec_fn(Seq<Effect>, FileId) -> Seq<u8>,
    /// The next random number in a range.
    pub draw: spec_fn(Seq<Effect>, u64, u64) -> u64,
}

/// The world as a node sees it: how it answers, and what has been done to it.
pub struct IoState {
    pub env: IoEnv,
    pub log: Seq<Effect>,
}

impl IoState {
    /// The state after one more effect.
    pub open spec fn did(self, e: Effect) -> IoState {
        IoState { log: self.log.push(e), ..self }
    }

    pub open spec fn now(self) -> u64 {
        (self.env.now)(self.log)
    }

    pub open spec fn timer(self) -> u64 {
        (self.env.timer)(self.log)
    }

    pub open spec fn op(self) -> u64 {
        (self.env.op)(self.log)
    }

    pub open spec fn file(self, file: FileId) -> Seq<u8> {
        (self.env.file)(self.log, file)
    }

    pub open spec fn draw(self, lo: u64, hi: u64) -> u64 {
        (self.env.draw)(self.log, lo, hi)
    }

    /// The state after a line of diagnostics.
    pub open spec fn trace(self, level: Level, category: Seq<char>, message: Seq<char>) -> IoState {
        self.did(Effect::Trace { level, category, message })
    }

    /// The state after a behaviour-defining event.
    pub open spec fn observe(self, tag: Seq<char>, args: Seq<u64>) -> IoState {
        self.did(Effect::Observe { label: tag, args })
    }
}

/// What every capability rests on: a world whose answers are determined.
pub trait Environment {
    /// The world as seen through this value.
    spec fn state(&self) -> IoState;

    /// The simulated world and the node this value was bound to, before
    /// anything was done through it.
    spec fn origin(&self) -> (WorldView, NodeId);

    /// Whether the value may be used.
    spec fn valid(&self) -> bool;
}

} // verus!
