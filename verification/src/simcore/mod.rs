//! The deterministic world a distributed system runs inside.
//!
//! The simulator is a single thread, a virtual clock, and one seeded random
//! source. Nodes never touch the OS: they send messages through [`net`], write
//! to [`disk`], and set timers on the [`scheduler`]. Faults come from [`faults`].
//! Given a seed, the entire run -- every message order, every latency, every
//! torn write -- is reproducible on any machine, which is what turns a rare
//! concurrency bug into a unit test.
//!
//! This module knows nothing about the application under test. It moves bytes,
//! loses bytes, and lies about durability; interpreting those bytes is somebody
//! else's job.

pub mod determinism;
pub mod disk;
pub mod disk_laws;
pub mod draw_laws;
pub mod fault_laws;
pub mod faults;
pub mod net;
pub mod net_laws;
pub mod rng;
pub mod scheduler;
pub mod trace;
pub mod world;
pub mod world_laws;

pub use self::world::{World, WorldConfig};

use crate::text::{decimal, own, put_num};
use vstd::prelude::*;

verus! {

/// Virtual time, in nanoseconds since the start of the run.
pub type Nanos = u64;

pub const MICROS: Nanos = 1_000;

pub const MILLIS: Nanos = 1_000_000;

pub const SECONDS: Nanos = 1_000_000_000;

/// Identifies a node by its position in the cluster.
#[derive(Clone, Copy, PartialEq, Eq, PartialOrd, Ord, Hash, Debug, Structural)]
pub struct NodeId(pub u32);

impl NodeId {
    /// The node's position.
    pub fn idx(self) -> (r: usize)
        ensures
            r == self.0,
    {
        self.0 as usize
    }

    /// How the node is shown: `n` and its number.
    pub open spec fn label(self) -> Seq<char> {
        "n"@ + decimal(self.0 as nat)
    }

    /// How the node is shown.
    pub fn text(self) -> (r: String)
        ensures
            r@ == self.label(),
    {
        let mut s = own("n");
        put_num(&mut s, self.0 as u64);
        s
    }
}

} // verus!
