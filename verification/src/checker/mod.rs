//! The oracles that decide whether a run was correct.
//!
//! Three of them, at different levels:
//!
//! * [`invariants`] watches the cluster's internal state continuously and
//!   enforces the Raft safety properties -- one leader per term, log matching,
//!   committed entries never lost or rewritten. These catch bugs at the moment
//!   they happen, with the state still on screen.
//! * [`durability`] checks the story the disks tell: that everything the
//!   cluster considers committed really is on stable storage on a majority, and
//!   that a restarted node recovers a prefix of what it had.
//! * [`linearizability`] checks the only thing a user can actually observe --
//!   the sequence of requests and replies -- against a single-threaded model.
//!
//! The internal checks are the ones that make failures debuggable; the external
//! check is the one that makes them meaningful. A system can pass every
//! invariant and still hand a client a stale read.

pub mod bits;
pub mod durability;
pub mod durability_laws;
pub mod engine;
pub mod finding_laws;
pub mod history_laws;
pub mod invariant_laws;
pub mod invariants;
pub mod linearizability;
pub mod links;
pub mod locality;
pub mod memo;
pub mod operation;
pub mod report;
pub mod search;

pub use self::report::{Report, Violation};
