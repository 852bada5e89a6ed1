//! A deterministic simulation tester for a replicated key-value store.
//!
//! The crate holds the whole of it as verified code: the simulated world
//! ([`simcore`]), the capability boundary nodes run against ([`sim_io`]), the
//! Raft-based store under test ([`kvstore`]), the properties it is held to
//! ([`checker`]) and the driver that runs, checks, replays and shrinks runs
//! ([`harness`]).

pub mod bytes;
pub mod checker;
pub mod count;
pub mod figures;
pub mod harness;
pub mod kvstore;
pub mod ordered;
pub mod sim_io;
pub mod simcore;
pub mod sort;
pub mod text;
