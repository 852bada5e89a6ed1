//! What each simplification takes away and what it leaves, which of them are
//! kept, and how a run is named.

use crate::harness::cluster_model::run_of;
use crate::harness::config::SimConfig;
use crate::harness::outcome::RunView;
use crate::harness::replay::replayed;
use crate::harness::shrink::{all_candidates, Candidate, ShrinkView, SHORTEST_RUN, SHORTEST_SETTLE};
use crate::simcore::faults::FaultConfig;
use crate::simcore::trace::Level;
use vstd::prelude::*;

verus! {

/// Every simplification there is gets its turn, once in a pass.
pub proof fn law_every_simplification_is_tried(c: Candidate)
    ensures
        all_candidates().contains(c),
        forall|i: int, j: int|
            0 <= i < j < all_candidates().len() ==> #[trigger] all_candidates()[i]
                != #[trigger] all_candidates()[j],
{
    let all = all_candidates();
    assert(all[0] is NoCrashes && all[1] is NoPartitions && all[2] is NoClockSkew
        && all[3] is NoSlowLinks && all[4] is NoLoss && all[5] is NoDuplication
        && all[6] is NoCorruption && all[7] is NoIoErrors && all[8] is NoTornWrites
        && all[9] is NoLostWrites && all[10] is NoReordering && all[11] is FewerServers
        && all[12] is FewerClients && all[13] is FewerKeys && all[14] is ShorterRun
        && all[15] is ShorterSettle && all[16] is NoCas && all[17] is NoDeletes
        && all[18] is NoReads);
}

/// What no simplification touches: the seed, how thoroughly the run is checked,
/// the store itself, and how far a latency or a jump may go.
pub open spec fn same_test(a: SimConfig, b: SimConfig) -> bool {
    &&& a.seed == b.seed
    &&& a.drain == b.drain
    &&& a.max_events == b.max_events
    &&& a.check_every == b.check_every
    &&& a.check_durability_every == b.check_durability_every
    &&& a.check_liveness == b.check_liveness
    &&& a.linearizability_budget == b.linearizability_budget
    &&& a.raft == b.raft
    &&& a.trace_level == b.trace_level
    &&& a.net.latency == b.net.latency
    &&& a.faults.tick_interval == b.faults.tick_interval
    &&& a.faults.allow_quorum_loss == b.faults.allow_quorum_loss
    &&& a.workload.request_timeout == b.workload.request_timeout
    &&& a.workload.max_attempts == b.workload.max_attempts
}

/// A simplification takes away what it names and nothing else.
pub proof fn law_simplifications_take_one_thing(c: Candidate, cfg: SimConfig)
    requires
        c.applies(cfg),
    ensures
        ({
            let s = c.simplified(cfg);
            let (f, g) = (cfg.faults, s.faults);
            let (n, m) = (cfg.net, s.net);
            let (d, e) = (cfg.disk, s.disk);
            let (w, x) = (cfg.workload, s.workload);
            &&& same_test(cfg, s)
            &&& g.enable_crashes == (f.enable_crashes && !(c is NoCrashes))
            &&& g.enable_partitions == (f.enable_partitions && !(c is NoPartitions))
            &&& g.enable_clock_skew == (f.enable_clock_skew && !(c is NoClockSkew))
            &&& g.enable_slow_links == (f.enable_slow_links && !(c is NoSlowLinks))
            &&& m.drop_ppm == if c is NoLoss {
                0
            } else {
                n.drop_ppm
            }
            &&& m.duplicate_ppm == if c is NoDuplication {
                0
            } else {
                n.duplicate_ppm
            }
            &&& m.corrupt_ppm == if c is NoCorruption {
                0
            } else {
                n.corrupt_ppm
            }
            &&& e.io_error_ppm == if c is NoIoErrors {
                0
            } else {
                d.io_error_ppm
            }
            &&& e.torn_write_ppm == if c is NoTornWrites {
                0
            } else {
                d.torn_write_ppm
            }
            &&& e.lost_write_ppm == if c is NoLostWrites {
                0
            } else {
                d.lost_write_ppm
            }
            &&& e.reorder_unsynced == (d.reorder_unsynced && !(c is NoReordering))
            &&& x.cas_weight == if c is NoCas {
                0
            } else {
                w.cas_weight
            }
            &&& x.delete_weight == if c is NoDeletes {
                0
            } else {
                w.delete_weight
            }
            &&& x.read_weight == if c is NoReads {
                0
            } else {
                w.read_weight
            }
            &&& x.write_weight == w.write_weight
        }),
{
    reveal(Candidate::applies);
    reveal(Candidate::simplified);
}

/// What is counted is made less: servers go to three, or to one where there are
/// no more; clients and keys to half, but one is left; a run and its settling to
/// half, but no shorter than they may be. Anything else is left as it is.
pub proof fn law_simplifications_count_down(c: Candidate, cfg: SimConfig)
    requires
        c.applies(cfg),
    ensures
        ({
            let s = c.simplified(cfg);
            &&& c is FewerServers ==> s.servers < cfg.servers && (cfg.servers > 3 ==> s.servers == 3)
                && (cfg.servers <= 3 ==> s.servers == 1)
            &&& !(c is FewerServers) ==> s.servers == cfg.servers
            &&& c is FewerClients ==> 1 <= s.clients < cfg.clients && (s.clients == 1 || 2 * s.clients
                == cfg.clients || 2 * s.clients + 1 == cfg.clients)
            &&& !(c is FewerClients) ==> s.clients == cfg.clients
            &&& c is FewerKeys ==> 1 <= s.workload.keys < cfg.workload.keys && (s.workload.keys == 1
                || 2 * s.workload.keys == cfg.workload.keys || 2 * s.workload.keys + 1
                == cfg.workload.keys)
            &&& !(c is FewerKeys) ==> s.workload.keys == cfg.workload.keys
            &&& c is ShorterRun ==> SHORTEST_RUN <= s.duration < cfg.duration && (s.duration
                == SHORTEST_RUN || 2 * s.duration == cfg.duration || 2 * s.duration + 1
                == cfg.duration) && s.faults.window.1 == s.duration && s.faults.window.0
                <= s.duration
            &&& !(c is ShorterRun) ==> s.duration == cfg.duration && s.faults.window
                == cfg.faults.window
            &&& c is ShorterSettle ==> SHORTEST_SETTLE <= s.settle < cfg.settle && (s.settle
                == SHORTEST_SETTLE || 2 * s.settle == cfg.settle || 2 * s.settle + 1 == cfg.settle)
            &&& !(c is ShorterSettle) ==> s.settle == cfg.settle
        }),
{
    reveal(Candidate::applies);
    reveal(Candidate::simplified);
}

/// A simplification has a turn exactly while there is something it can take.
pub proof fn law_simplifications_apply_while_they_can(cfg: SimConfig)
    ensures
        Candidate::NoCrashes.applies(cfg) <==> cfg.faults.enable_crashes,
        Candidate::NoPartitions.applies(cfg) <==> cfg.faults.enable_partitions,
        Candidate::NoClockSkew.applies(cfg) <==> cfg.faults.enable_clock_skew,
        Candidate::NoSlowLinks.applies(cfg) <==> cfg.faults.enable_slow_links,
        Candidate::NoLoss.applies(cfg) <==> cfg.net.drop_ppm != 0,
        Candidate::NoDuplication.applies(cfg) <==> cfg.net.duplicate_ppm != 0,
        Candidate::NoCorruption.applies(cfg) <==> cfg.net.corrupt_ppm != 0,
        Candidate::NoIoErrors.applies(cfg) <==> cfg.disk.io_error_ppm != 0,
        Candidate::NoTornWrites.applies(cfg) <==> cfg.disk.torn_write_ppm != 0,
        Candidate::NoLostWrites.applies(cfg) <==> cfg.disk.lost_write_ppm != 0,
        Candidate::NoReordering.applies(cfg) <==> cfg.disk.reorder_unsynced,
        Candidate::FewerServers.applies(cfg) <==> cfg.servers >= 2,
        Candidate::FewerClients.applies(cfg) <==> cfg.clients >= 2,
        Candidate::FewerKeys.applies(cfg) <==> cfg.workload.keys >= 2,
        Candidate::ShorterRun.applies(cfg) <==> cfg.duration > SHORTEST_RUN,
        Candidate::ShorterSettle.applies(cfg) <==> cfg.settle > SHORTEST_SETTLE,
        Candidate::NoCas.applies(cfg) <==> cfg.workload.cas_weight != 0,
        Candidate::NoDeletes.applies(cfg) <==> cfg.workload.delete_weight != 0,
        Candidate::NoReads.applies(cfg) <==> cfg.workload.read_weight != 0
            && cfg.workload.write_weight != 0,
{
    reveal(Candidate::applies);
}

/// A simplification is kept exactly where the run without it still fails, and
/// fails the same way; each try costs one run, and one that has nothing to take
/// costs none.
pub proof fn law_what_is_kept(s: ShrinkView, c: Candidate)
    ensures
        ({
            let t = s.tried(c);
            let o = run_of(c.simplified(s.minimal));
            let same = o.report.len() > 0 && o.report[0].kind == s.signature;
            &&& !c.applies(s.minimal) ==> t == s
            &&& c.applies(s.minimal) ==> t.attempts == s.attempts + 1
            &&& c.applies(s.minimal) && same ==> t.minimal == c.simplified(s.minimal) && t.outcome == o
                && t.steps == s.steps + 1 && t.removed == s.removed.push(c.words())
            &&& c.applies(s.minimal) && !same ==> t.minimal == s.minimal && t.outcome == s.outcome
                && t.steps == s.steps && t.removed == s.removed
            &&& t.signature == s.signature && t.original == s.original
        }),
{
}

/// A run is named by the first thing that went wrong; without any, by whether it
/// finished.
pub proof fn law_runs_are_named_by_their_first_failure(r: RunView)
    ensures
        r.failed() <==> r.report.len() > 0,
        r.report.len() > 0 ==> r.signature() == r.report[0].kind,
        r.report.len() == 0 && r.incomplete ==> r.signature() == "incomplete"@,
        r.report.len() == 0 && !r.incomplete ==> r.signature() == "ok"@,
{
}

/// Putting the fault window inside the run changes nothing else, moves nothing
/// that was inside already, and ends the faults when the run's time is up.
pub proof fn law_normalising_moves_only_the_window(cfg: SimConfig)
    ensures
        ({
            let n = cfg.normalised();
            &&& n.faults.window.1 == cfg.duration
            &&& cfg.faults.window.0 <= cfg.duration ==> n.faults.window.0 == cfg.faults.window.0
            &&& cfg.faults.window.0 > cfg.duration ==> n.faults.window.0 == cfg.duration
            &&& (SimConfig {
                faults: FaultConfig { window: cfg.faults.window, ..n.faults },
                ..n
            }) == cfg
        }),
{
}

/// The world of a run has a node for every server and every client, and is made
/// of what the run was configured with.
pub proof fn law_the_world_of_a_run(cfg: SimConfig)
    requires
        cfg.runnable(),
    ensures
        cfg.world().nodes == cfg.servers + cfg.clients,
        cfg.world().seed == cfg.seed,
        cfg.world().net == cfg.net,
        cfg.world().disk == cfg.disk,
        cfg.world().faults == cfg.faults,
        cfg.world().trace_level == cfg.trace_level,
{
}

/// A replay runs the configuration it was given, traced as asked, and compares
/// it with as many further runs as asked.
pub proof fn law_replays_run_what_they_are_given(cfg: SimConfig, level: Level, more: nat)
    ensures
        ({
            let r = replayed(cfg, level, more);
            &&& r.outcome == run_of(SimConfig { trace_level: level, ..cfg.normalised() })
            &&& r.fingerprint == r.outcome.fingerprint
            &&& r.fingerprints.len() == more + 1
            &&& forall|i: int|
                0 <= i < r.fingerprints.len() ==> #[trigger] r.fingerprints[i]
                    == r.outcome.fingerprint
            &&& r.outcome.trace is Some ==> r.trace == r.outcome.trace->Some_0
        }),
{
    assert((SimConfig { trace_level: level, ..cfg }).normalised() == (SimConfig {
        trace_level: level,
        ..cfg.normalised()
    }));
}

} // verus!
