//! What determines a run.

use crate::checker::linearizability::DEFAULT_BUDGET;
use crate::count::{add_capped, plus};
use crate::harness::workload::WorkloadConfig;
use crate::kvstore::raft_model::RaftConfig;
use crate::simcore::disk::DiskConfig;
use crate::simcore::faults::FaultConfig;
use crate::simcore::net::NetConfig;
use crate::simcore::trace::Level;
use crate::simcore::world::WorldConfig;
use crate::simcore::{Nanos, MILLIS, SECONDS};
use vstd::prelude::*;

verus! {

/// Everything that determines a run. Same config plus same seed, same run.
#[derive(Clone, Copy, Debug)]
pub struct SimConfig {
    pub seed: u64,
    pub servers: usize,
    pub clients: usize,
    /// How long faults are injected for.
    pub duration: Nanos,
    /// Quiet period after the faults stop, in which the cluster must recover.
    pub settle: Nanos,
    /// Final window with the clients stopped, to let in-flight work finish.
    pub drain: Nanos,
    /// Fuel. A run that exceeds this is reported as incomplete rather than
    /// being allowed to spin forever.
    pub max_events: u64,
    /// Events between invariant sweeps. 1 checks after every single event.
    pub check_every: u64,
    /// Events between durability sweeps, which decode every disk.
    pub check_durability_every: u64,
    pub check_liveness: bool,
    pub linearizability_budget: u64,
    pub net: NetConfig,
    pub disk: DiskConfig,
    pub faults: FaultConfig,
    pub raft: RaftConfig,
    pub workload: WorkloadConfig,
    pub trace_level: Level,
}

impl SimConfig {
    /// The usual run: a hostile world.
    pub open spec fn standard() -> SimConfig {
        SimConfig {
            seed: 0,
            servers: 3,
            clients: 4,
            duration: 20_000_000_000,
            settle: 15_000_000_000,
            drain: 5_000_000_000,
            max_events: 4_000_000,
            check_every: 1,
            check_durability_every: 200,
            check_liveness: true,
            linearizability_budget: 5_000_000,
            net: NetConfig::harsh(),
            disk: DiskConfig::harsh(),
            faults: FaultConfig {
                window: (500_000_000, 20_000_000_000),
                ..FaultConfig::standard()
            },
            raft: RaftConfig::standard(),
            workload: WorkloadConfig::standard(),
            trace_level: Level::Off,
        }
    }

    /// A run in a perfect world.
    pub open spec fn perfect(seed: u64) -> SimConfig {
        SimConfig {
            seed,
            duration: 5_000_000_000,
            settle: 2_000_000_000,
            drain: 2_000_000_000,
            net: NetConfig::standard(),
            disk: DiskConfig::standard(),
            faults: FaultConfig::quiet(),
            ..SimConfig::standard()
        }
    }

    /// The same run with the fault window inside it.
    pub open spec fn normalised(self) -> SimConfig {
        SimConfig {
            faults: FaultConfig {
                window: (
                    if self.faults.window.0 <= self.duration {
                        self.faults.window.0
                    } else {
                        self.duration
                    },
                    self.duration,
                ),
                ..self.faults
            },
            ..self
        }
    }

    /// The world a run takes place in.
    pub open spec fn world(self) -> WorldConfig {
        WorldConfig {
            nodes: (self.servers + self.clients) as usize,
            seed: self.seed,
            net: self.net,
            disk: self.disk,
            faults: self.faults,
            trace_level: self.trace_level,
        }
    }

    /// Clients have someone to talk to, and the nodes can be numbered.
    pub open spec fn runnable(self) -> bool {
        &&& self.servers > 0 || self.clients == 0
        &&& self.servers + self.clients <= u32::MAX
    }
}

impl Default for SimConfig {
    fn default() -> (r: SimConfig)
        ensures
            r == SimConfig::standard(),
    {
        let duration: u64 = 20 * SECONDS;
        let mut faults = FaultConfig::default();
        faults.window = (500 * MILLIS, duration);
        SimConfig {
            seed: 0,
            servers: 3,
            clients: 4,
            duration,
            settle: 15 * SECONDS,
            drain: 5 * SECONDS,
            max_events: 4_000_000,
            check_every: 1,
            check_durability_every: 200,
            check_liveness: true,
            linearizability_budget: DEFAULT_BUDGET,
            net: NetConfig::hostile(),
            disk: DiskConfig::hostile(),
            faults,
            raft: RaftConfig::default(),
            workload: WorkloadConfig::default(),
            trace_level: Level::Off,
        }
    }
}

impl SimConfig {
    pub fn with_seed(seed: u64) -> (r: SimConfig)
        ensures
            r == (SimConfig { seed, ..SimConfig::standard() }),
    {
        let mut cfg = SimConfig::default();
        cfg.seed = seed;
        cfg
    }

    /// A perfect world: no faults, no loss, no disk lies. If a seed fails here,
    /// the bug has nothing to do with fault handling.
    pub fn benign(seed: u64) -> (r: SimConfig)
        ensures
            r == SimConfig::perfect(seed),
    {
        let mut cfg = SimConfig::default();
        cfg.seed = seed;
        cfg.duration = 5 * SECONDS;
        cfg.settle = 2 * SECONDS;
        cfg.drain = 2 * SECONDS;
        cfg.net = NetConfig::reliable();
        cfg.disk = DiskConfig::reliable();
        cfg.faults = FaultConfig::none();
        cfg
    }

    /// Keep the fault window aligned with the run length after either changes.
    pub fn normalise(&mut self)
        ensures
            *final(self) == old(self).normalised(),
    {
        let start: u64 = if self.faults.window.0 <= self.duration {
            self.faults.window.0
        } else {
            self.duration
        };
        self.faults.window = (start, self.duration);
    }

    /// How long a run lasts, as far as numbers go.
    pub fn total_time(&self) -> (r: Nanos)
        ensures
            r == plus(plus(self.duration, self.settle), self.drain),
    {
        add_capped(add_capped(self.duration, self.settle), self.drain)
    }
}

/// However a run was changed, normalising puts its fault window inside it, and
/// doing so twice changes nothing more.
pub proof fn law_the_window_lies_inside_the_run(cfg: SimConfig)
    ensures
        cfg.normalised().faults.window.0 <= cfg.normalised().faults.window.1,
        cfg.normalised().faults.window.1 == cfg.duration,
        cfg.normalised().normalised() == cfg.normalised(),
{
}

} // verus!
