//! Turning a seed into a verdict.
//!
//! [`SimConfig`] describes a run; [`run`] executes one and judges it; [`sweep`]
//! runs many to go looking for trouble; [`shrink`] cuts a failing configuration
//! down to the smallest one that still fails; [`replay`] re-runs a seed with
//! tracing on, and checks that it is the same run.
//!
//! The whole point of the arrangement is that a bug report is a number. A
//! failing seed plus its config reproduces the same run, event for event, on any
//! machine, forever: what [`run`] returns is a function of its configuration,
//! and [`trace_laws`] shows that tracing is no part of what it depends on.

pub mod args;
pub mod args_laws;
pub mod cluster;
pub mod cluster_laws;
pub mod cluster_model;
pub mod config;
pub mod liveness_laws;
pub mod outcome;
pub mod replay;
pub mod run_laws;
pub mod shrink;
pub mod shrink_laws;
pub mod sweep;
pub mod sweep_laws;
pub mod time_laws;
pub mod trace_laws;
pub mod verdict_laws;
pub mod workload;
pub mod workload_laws;

pub use self::cluster::{run, Cluster};
pub use self::config::SimConfig;
pub use self::outcome::{RunOutcome, RunStats};
pub use self::workload::WorkloadConfig;
