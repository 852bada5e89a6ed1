//! Cutting a failing configuration down to the smallest one that still fails.
//!
//! A raw failure is a twenty-second run with five nodes, eight clients,
//! partitions, crashes, torn writes and clock skew all at once. Almost none of
//! that is load-bearing. Shrinking repeatedly proposes a simpler configuration
//! -- fewer nodes, less time, one fault type switched off -- keeps it if the run
//! *still fails the same way*, and stops when nothing more can be removed.
//!
//! What comes out is a much better bug report: "three nodes, four seconds, no
//! network faults at all, but torn writes on" says where to look in a way that
//! the original never did.
//!
//! A caveat worth being honest about. The seed is held fixed, but changing the
//! configuration changes how the random stream is consumed, so a shrunk run is
//! not the original run with pieces removed -- it is a different run that fails
//! the same way. That is what makes shrinking here a search rather than a
//! deduction, and it is why every candidate is verified by actually running it.

use crate::harness::cluster::run;
use crate::harness::cluster_model::run_of;
use crate::harness::config::SimConfig;
use crate::harness::outcome::{RunOutcome, RunView};
use crate::harness::workload::WorkloadConfig;
use crate::simcore::disk::DiskConfig;
use crate::simcore::faults::FaultConfig;
use crate::simcore::net::NetConfig;
use crate::simcore::{Nanos, MILLIS};
use crate::text::{decimal, join, join_str, own, put_num, same_str, texts};
use vstd::prelude::*;

verus! {

/// The shortest run a failure is cut down to.
pub const SHORTEST_RUN: Nanos = 500_000_000;

/// The shortest quiet period a failure is cut down to.
pub const SHORTEST_SETTLE: Nanos = 5_000_000_000;

/// What tidy durations are multiples of.
pub const TIDY: Nanos = 100_000_000;

/// One proposed simplification.
#[derive(Clone, Copy, Debug, PartialEq, Eq)]
pub enum Candidate {
    NoCrashes,
    NoPartitions,
    NoClockSkew,
    NoSlowLinks,
    NoLoss,
    NoDuplication,
    NoCorruption,
    NoIoErrors,
    NoTornWrites,
    NoLostWrites,
    NoReordering,
    FewerServers,
    FewerClients,
    FewerKeys,
    ShorterRun,
    ShorterSettle,
    NoCas,
    NoDeletes,
    NoReads,
}

/// Half of a number, but not less than `floor`.
pub open spec fn halved(n: int, floor: int) -> int {
    if n / 2 > floor {
        n / 2
    } else {
        floor
    }
}

impl Candidate {
    /// What the simplification takes away, in words.
    pub open spec fn words(self) -> Seq<char> {
        match self {
            Candidate::NoCrashes => "crashes disabled"@,
            Candidate::NoPartitions => "partitions disabled"@,
            Candidate::NoClockSkew => "clock skew disabled"@,
            Candidate::NoSlowLinks => "slow links disabled"@,
            Candidate::NoLoss => "message loss disabled"@,
            Candidate::NoDuplication => "message duplication disabled"@,
            Candidate::NoCorruption => "message corruption disabled"@,
            Candidate::NoIoErrors => "disk io errors disabled"@,
            Candidate::NoTornWrites => "torn writes disabled"@,
            Candidate::NoLostWrites => "lost writes disabled"@,
            Candidate::NoReordering => "unsynced write reordering disabled"@,
            Candidate::FewerServers => "fewer servers"@,
            Candidate::FewerClients => "fewer clients"@,
            Candidate::FewerKeys => "fewer keys"@,
            Candidate::ShorterRun => "shorter run"@,
            Candidate::ShorterSettle => "shorter settle"@,
            Candidate::NoCas => "no compare-and-set"@,
            Candidate::NoDeletes => "no deletes"@,
            Candidate::NoReads => "no reads"@,
        }
    }

    /// Whether a configuration still has what the simplification takes away.
    #[verifier::opaque]
    pub open spec fn applies(self, cfg: SimConfig) -> bool {
        match self {
            Candidate::NoCrashes => cfg.faults.enable_crashes,
            Candidate::NoPartitions => cfg.faults.enable_partitions,
            Candidate::NoClockSkew => cfg.faults.enable_clock_skew,
            Candidate::NoSlowLinks => cfg.faults.enable_slow_links,
            Candidate::NoLoss => cfg.net.drop_ppm > 0,
            Candidate::NoDuplication => cfg.net.duplicate_ppm > 0,
            Candidate::NoCorruption => cfg.net.corrupt_ppm > 0,
            Candidate::NoIoErrors => cfg.disk.io_error_ppm > 0,
            Candidate::NoTornWrites => cfg.disk.torn_write_ppm > 0,
            Candidate::NoLostWrites => cfg.disk.lost_write_ppm > 0,
            Candidate::NoReordering => cfg.disk.reorder_unsynced,
            Candidate::FewerServers => cfg.servers > 1,
            Candidate::FewerClients => cfg.clients > 1,
            Candidate::FewerKeys => cfg.workload.keys > 1,
            Candidate::ShorterRun => cfg.duration > SHORTEST_RUN,
            Candidate::ShorterSettle => cfg.settle > SHORTEST_SETTLE,
            Candidate::NoCas => cfg.workload.cas_weight > 0,
            Candidate::NoDeletes => cfg.workload.delete_weight > 0,
            Candidate::NoReads => cfg.workload.read_weight > 0 && cfg.workload.write_weight > 0,
        }
    }

    /// A configuration without it.
    #[verifier::opaque]
    pub open spec fn simplified(self, cfg: SimConfig) -> SimConfig {
        let f = cfg.faults;
        let n = cfg.net;
        let d = cfg.disk;
        let w = cfg.workload;
        match self {
            Candidate::NoCrashes => SimConfig {
                faults: FaultConfig { enable_crashes: false, ..f },
                ..cfg
            },
            Candidate::NoPartitions => SimConfig {
                faults: FaultConfig { enable_partitions: false, ..f },
                ..cfg
            },
            Candidate::NoClockSkew => SimConfig {
                faults: FaultConfig { enable_clock_skew: false, ..f },
                ..cfg
            },
            Candidate::NoSlowLinks => SimConfig {
                faults: FaultConfig { enable_slow_links: false, ..f },
                ..cfg
            },
            Candidate::NoLoss => SimConfig { net: NetConfig { drop_ppm: 0, ..n }, ..cfg },
            Candidate::NoDuplication => SimConfig {
                net: NetConfig { duplicate_ppm: 0, ..n },
                ..cfg
            },
            Candidate::NoCorruption => SimConfig { net: NetConfig { corrupt_ppm: 0, ..n }, ..cfg },
            Candidate::NoIoErrors => SimConfig {
                disk: DiskConfig { io_error_ppm: 0, ..d },
                ..cfg
            },
            Candidate::NoTornWrites => SimConfig {
                disk: DiskConfig { torn_write_ppm: 0, ..d },
                ..cfg
            },
            Candidate::NoLostWrites => SimConfig {
                disk: DiskConfig { lost_write_ppm: 0, ..d },
                ..cfg
            },
            Candidate::NoReordering => SimConfig {
                disk: DiskConfig { reorder_unsynced: false, ..d },
                ..cfg
            },
            Candidate::FewerServers => SimConfig {
                servers: if cfg.servers > 3 {
                    3
                } else {
                    1
                },
                ..cfg
            },
            Candidate::FewerClients => SimConfig {
                clients: halved(cfg.clients as int, 1) as usize,
                ..cfg
            },
            Candidate::FewerKeys => SimConfig {
                workload: WorkloadConfig {
                    keys: halved(w.keys as int, 1) as usize,
                    ..w
                },
                ..cfg
            },
            Candidate::ShorterRun => SimConfig {
                duration: halved(cfg.duration as int, SHORTEST_RUN as int) as u64,
                ..cfg
            }.normalised(),
            Candidate::ShorterSettle => SimConfig {
                settle: halved(cfg.settle as int, SHORTEST_SETTLE as int) as u64,
                ..cfg
            },
            Candidate::NoCas => SimConfig {
                workload: WorkloadConfig { cas_weight: 0, ..w },
                ..cfg
            },
            Candidate::NoDeletes => SimConfig {
                workload: WorkloadConfig { delete_weight: 0, ..w },
                ..cfg
            },
            Candidate::NoReads => SimConfig {
                workload: WorkloadConfig { read_weight: 0, ..w },
                ..cfg
            },
        }
    }

    /// What the simplification takes away, in words.
    pub fn label(self) -> (r: &'static str)
        ensures
            r@ == self.words(),
    {
        match self {
            Candidate::NoCrashes => "crashes disabled",
            Candidate::NoPartitions => "partitions disabled",
            Candidate::NoClockSkew => "clock skew disabled",
            Candidate::NoSlowLinks => "slow links disabled",
            Candidate::NoLoss => "message loss disabled",
            Candidate::NoDuplication => "message duplication disabled",
            Candidate::NoCorruption => "message corruption disabled",
            Candidate::NoIoErrors => "disk io errors disabled",
            Candidate::NoTornWrites => "torn writes disabled",
            Candidate::NoLostWrites => "lost writes disabled",
            Candidate::NoReordering => "unsynced write reordering disabled",
            Candidate::FewerServers => "fewer servers",
            Candidate::FewerClients => "fewer clients",
            Candidate::FewerKeys => "fewer keys",
            Candidate::ShorterRun => "shorter run",
            Candidate::ShorterSettle => "shorter settle",
            Candidate::NoCas => "no compare-and-set",
            Candidate::NoDeletes => "no deletes",
            Candidate::NoReads => "no reads",
        }
    }

    fn wanted(self, cfg: &SimConfig) -> (r: bool)
        ensures
            r == self.applies(*cfg),
    {
        proof {
            reveal(Candidate::applies);
        }
        match self {
            Candidate::NoCrashes => cfg.faults.enable_crashes,
            Candidate::NoPartitions => cfg.faults.enable_partitions,
            Candidate::NoClockSkew => cfg.faults.enable_clock_skew,
            Candidate::NoSlowLinks => cfg.faults.enable_slow_links,
            Candidate::NoLoss => cfg.net.drop_ppm > 0,
            Candidate::NoDuplication => cfg.net.duplicate_ppm > 0,
            Candidate::NoCorruption => cfg.net.corrupt_ppm > 0,
            Candidate::NoIoErrors => cfg.disk.io_error_ppm > 0,
            Candidate::NoTornWrites => cfg.disk.torn_write_ppm > 0,
            Candidate::NoLostWrites => cfg.disk.lost_write_ppm > 0,
            Candidate::NoReordering => cfg.disk.reorder_unsynced,
            Candidate::FewerServers => cfg.servers > 1,
            Candidate::FewerClients => cfg.clients > 1,
            Candidate::FewerKeys => cfg.workload.keys > 1,
            Candidate::ShorterRun => cfg.duration > SHORTEST_RUN,
            Candidate::ShorterSettle => cfg.settle > SHORTEST_SETTLE,
            Candidate::NoCas => cfg.workload.cas_weight > 0,
            Candidate::NoDeletes => cfg.workload.delete_weight > 0,
            Candidate::NoReads => cfg.workload.read_weight > 0 && cfg.workload.write_weight > 0,
        }
    }

    /// The simpler configuration, where there is one.
    pub fn apply(self, cfg: &SimConfig) -> (r: Option<SimConfig>)
        ensures
            r == (if self.applies(*cfg) {
                Some(self.simplified(*cfg))
            } else {
                None
            }),
    {
        if !self.wanted(cfg) {
            return None;
        }
        proof {
            reveal(Candidate::applies);
            reveal(Candidate::simplified);
        }
        let mut n = *cfg;
        match self {
            Candidate::NoCrashes => n.faults.enable_crashes = false,
            Candidate::NoPartitions => n.faults.enable_partitions = false,
            Candidate::NoClockSkew => n.faults.enable_clock_skew = false,
            Candidate::NoSlowLinks => n.faults.enable_slow_links = false,
            Candidate::NoLoss => n.net.drop_ppm = 0,
            Candidate::NoDuplication => n.net.duplicate_ppm = 0,
            Candidate::NoCorruption => n.net.corrupt_ppm = 0,
            Candidate::NoIoErrors => n.disk.io_error_ppm = 0,
            Candidate::NoTornWrites => n.disk.torn_write_ppm = 0,
            Candidate::NoLostWrites => n.disk.lost_write_ppm = 0,
            Candidate::NoReordering => n.disk.reorder_unsynced = false,
            Candidate::FewerServers => n.servers = if cfg.servers > 3 {
                3
            } else {
                1
            },
            Candidate::FewerClients => n.clients = if cfg.clients / 2 > 1 {
                cfg.clients / 2
            } else {
                1
            },
            Candidate::FewerKeys => n.workload.keys = if cfg.workload.keys / 2 > 1 {
                cfg.workload.keys / 2
            } else {
                1
            },
            Candidate::ShorterRun => {
                n.duration = if cfg.duration / 2 > SHORTEST_RUN {
                    cfg.duration / 2
                } else {
                    SHORTEST_RUN
                };
                n.normalise();
            },
            Candidate::ShorterSettle => n.settle = if cfg.settle / 2 > SHORTEST_SETTLE {
                cfg.settle / 2
            } else {
                SHORTEST_SETTLE
            },
            Candidate::NoCas => n.workload.cas_weight = 0,
            Candidate::NoDeletes => n.workload.delete_weight = 0,
            Candidate::NoReads => n.workload.read_weight = 0,
        }
        Some(n)
    }
}

/// Every simplification, ordered roughly by how much it simplifies a report:
/// switching a whole fault class off says more than shaving a second off the
/// run.
pub open spec fn all_candidates() -> Seq<Candidate> {
    seq![
        Candidate::NoCrashes,
        Candidate::NoPartitions,
        Candidate::NoClockSkew,
        Candidate::NoSlowLinks,
        Candidate::NoLoss,
        Candidate::NoDuplication,
        Candidate::NoCorruption,
        Candidate::NoIoErrors,
        Candidate::NoTornWrites,
        Candidate::NoLostWrites,
        Candidate::NoReordering,
        Candidate::FewerServers,
        Candidate::FewerClients,
        Candidate::FewerKeys,
        Candidate::ShorterRun,
        Candidate::ShorterSettle,
        Candidate::NoCas,
        Candidate::NoDeletes,
        Candidate::NoReads,
    ]
}

/// Every simplification, the ones that say most first.
pub fn candidates() -> (r: Vec<Candidate>)
    ensures
        r@ == all_candidates(),
{
    let all: [Candidate; 19] = [
        Candidate::NoCrashes,
        Candidate::NoPartitions,
        Candidate::NoClockSkew,
        Candidate::NoSlowLinks,
        Candidate::NoLoss,
        Candidate::NoDuplication,
        Candidate::NoCorruption,
        Candidate::NoIoErrors,
        Candidate::NoTornWrites,
        Candidate::NoLostWrites,
        Candidate::NoReordering,
        Candidate::FewerServers,
        Candidate::FewerClients,
        Candidate::FewerKeys,
        Candidate::ShorterRun,
        Candidate::ShorterSettle,
        Candidate::NoCas,
        Candidate::NoDeletes,
        Candidate::NoReads,
    ];
    assert(all@ =~= all_candidates());
    let mut out: Vec<Candidate> = Vec::new();
    let mut i: usize = 0;
    while i < 19
        invariant
            i <= 19,
            all@ == all_candidates(),
            out@ == all@.take(i as int),
        decreases 19 - i,
    {
        out.push(all[i]);
        i += 1;
        assert(out@ =~= all@.take(i as int));
    }
    assert(all@.take(19) =~= all@);
    out
}

/// One where something is there to be taken away.
pub open spec fn one_if(b: bool) -> nat {
    if b {
        1
    } else {
        0
    }
}

/// How many kinds of fault are switched on.
pub open spec fn fault_weight(f: FaultConfig) -> nat {
    one_if(f.enable_crashes) + one_if(f.enable_partitions) + one_if(f.enable_clock_skew) + one_if(
        f.enable_slow_links,
    )
}

/// How many ways a network has to harm a message.
pub open spec fn net_weight(n: NetConfig) -> nat {
    one_if(n.drop_ppm > 0) + one_if(n.duplicate_ppm > 0) + one_if(n.corrupt_ppm > 0)
}

/// How many ways a disk has to harm a write.
pub open spec fn disk_weight(d: DiskConfig) -> nat {
    one_if(d.io_error_ppm > 0) + one_if(d.torn_write_ppm > 0) + one_if(d.lost_write_ppm > 0)
        + one_if(d.reorder_unsynced)
}

/// How many keys and kinds of operation a workload has that it can do without.
pub open spec fn work_weight(w: WorkloadConfig) -> nat {
    w.keys as nat + one_if(w.cas_weight > 0) + one_if(w.delete_weight > 0) + one_if(
        w.read_weight > 0,
    )
}

/// How much there is left to take away from a configuration.
pub open spec fn weight(cfg: SimConfig) -> nat {
    fault_weight(cfg.faults) + net_weight(cfg.net) + disk_weight(cfg.disk) + work_weight(
        cfg.workload,
    ) + cfg.servers as nat + cfg.clients as nat + cfg.duration as nat + cfg.settle as nat
}

/// Every simplification strictly simplifies: shrinking cannot go on forever. It
/// also leaves a configuration that can be run.
pub proof fn law_candidates_simplify(c: Candidate, cfg: SimConfig)
    requires
        c.applies(cfg),
    ensures
        weight(c.simplified(cfg)) < weight(cfg),
        cfg.runnable() ==> c.simplified(cfg).runnable(),
        c.simplified(cfg).seed == cfg.seed,
{
    reveal(Candidate::applies);
    reveal(Candidate::simplified);
    match c {
        Candidate::NoCrashes => {},
        Candidate::NoPartitions => {},
        Candidate::NoClockSkew => {},
        Candidate::NoSlowLinks => {},
        Candidate::NoLoss => {},
        Candidate::NoDuplication => {},
        Candidate::NoCorruption => {},
        Candidate::NoIoErrors => {},
        Candidate::NoTornWrites => {},
        Candidate::NoLostWrites => {},
        Candidate::NoReordering => {},
        Candidate::FewerServers => {},
        Candidate::FewerClients => {},
        Candidate::FewerKeys => {},
        Candidate::ShorterRun => {
            assert(fault_weight(c.simplified(cfg).faults) == fault_weight(cfg.faults));
        },
        Candidate::ShorterSettle => {},
        Candidate::NoCas => {},
        Candidate::NoDeletes => {},
        Candidate::NoReads => {},
    }
}

/// A simplification that takes a whole class of faults or operations away has
/// nothing left to do once it was applied.
pub proof fn law_switching_off_is_final(c: Candidate, cfg: SimConfig)
    requires
        !(c is FewerServers || c is FewerClients || c is FewerKeys || c is ShorterRun
            || c is ShorterSettle),
    ensures
        !c.applies(c.simplified(cfg)),
{
    reveal(Candidate::applies);
    reveal(Candidate::simplified);
}

// ---- describing a configuration --------------------------------------------

/// A list with one more word, where it has a place there.
pub open spec fn put_if(words: Seq<Seq<char>>, wanted: bool, word: Seq<char>) -> Seq<Seq<char>> {
    if wanted {
        words.push(word)
    } else {
        words
    }
}

/// A rate in words.
pub open spec fn rate(name: Seq<char>, ppm: u32) -> Seq<char> {
    name + decimal(ppm as nat) + "ppm"@
}

/// The kinds of fault that are switched on.
pub open spec fn fault_words(f: FaultConfig) -> Seq<Seq<char>> {
    put_if(
        put_if(
            put_if(
                put_if(Seq::empty(), f.enable_crashes, "crashes"@),
                f.enable_partitions,
                "partitions"@,
            ),
            f.enable_clock_skew,
            "clock-skew"@,
        ),
        f.enable_slow_links,
        "slow-links"@,
    )
}

/// How the network harms messages.
pub open spec fn net_words(n: NetConfig) -> Seq<Seq<char>> {
    put_if(
        put_if(
            put_if(Seq::empty(), n.drop_ppm > 0, rate("drop="@, n.drop_ppm)),
            n.duplicate_ppm > 0,
            rate("dup="@, n.duplicate_ppm),
        ),
        n.corrupt_ppm > 0,
        rate("corrupt="@, n.corrupt_ppm),
    )
}

/// How disks harm writes.
pub open spec fn disk_words(d: DiskConfig) -> Seq<Seq<char>> {
    put_if(
        put_if(
            put_if(
                put_if(Seq::empty(), d.io_error_ppm > 0, rate("io-error="@, d.io_error_ppm)),
                d.torn_write_ppm > 0,
                rate("torn="@, d.torn_write_ppm),
            ),
            d.lost_write_ppm > 0,
            rate("lost-write="@, d.lost_write_ppm),
        ),
        d.reorder_unsynced,
        "reorder-unsynced"@,
    )
}

/// The mix of operations.
pub open spec fn mix_words(w: WorkloadConfig) -> Seq<Seq<char>> {
    put_if(
        put_if(
            put_if(
                put_if(
                    Seq::empty(),
                    w.read_weight > 0,
                    "read:"@ + decimal(w.read_weight as nat),
                ),
                w.write_weight > 0,
                "write:"@ + decimal(w.write_weight as nat),
            ),
            w.cas_weight > 0,
            "cas:"@ + decimal(w.cas_weight as nat),
        ),
        w.delete_weight > 0,
        "delete:"@ + decimal(w.delete_weight as nat),
    )
}

/// A configuration in words.
pub open spec fn description(cfg: SimConfig) -> Seq<char> {
    "  seed="@ + decimal(cfg.seed as nat) + " servers="@ + decimal(cfg.servers as nat)
        + " clients="@ + decimal(cfg.clients as nat) + " keys="@ + decimal(
        cfg.workload.keys as nat,
    ) + " duration="@ + decimal((cfg.duration / MILLIS) as nat) + "ms settle="@ + decimal(
        (cfg.settle / MILLIS) as nat,
    ) + "ms\n  faults=["@ + join(fault_words(cfg.faults), ", "@) + "]\n  net=["@ + join(
        net_words(cfg.net),
        ", "@,
    ) + "]\n  disk=["@ + join(disk_words(cfg.disk), ", "@) + "]\n  workload=["@ + join(
        mix_words(cfg.workload),
        ", "@,
    ) + "]"@
}

fn note_if(words: &mut Vec<String>, wanted: bool, word: &str)
    ensures
        texts(final(words)@) == put_if(texts(old(words)@), wanted, word@),
{
    if wanted {
        words.push(own(word));
        assert(texts(words@) =~= texts(old(words)@).push(word@));
    }
}

fn rate_str(name: &str, ppm: u32) -> (r: String)
    ensures
        r@ == rate(name@, ppm),
{
    let mut s = own(name);
    put_num(&mut s, ppm as u64);
    s.append("ppm");
    s
}

fn share_str(name: &str, weight: u32) -> (r: String)
    ensures
        r@ == name@ + decimal(weight as nat),
{
    let mut s = own(name);
    put_num(&mut s, weight as u64);
    s
}

fn no_words() -> (r: Vec<String>)
    ensures
        texts(r@) == Seq::<Seq<char>>::empty(),
{
    let out: Vec<String> = Vec::new();
    assert(texts(out@) =~= Seq::<Seq<char>>::empty());
    out
}

/// A one-line description of a configuration, in the form of the flags that
/// would rebuild it.
pub fn describe(cfg: &SimConfig) -> (r: String)
    ensures
        r@ == description(*cfg),
{
    let f = &cfg.faults;
    let mut faults = no_words();
    note_if(&mut faults, f.enable_crashes, "crashes");
    note_if(&mut faults, f.enable_partitions, "partitions");
    note_if(&mut faults, f.enable_clock_skew, "clock-skew");
    note_if(&mut faults, f.enable_slow_links, "slow-links");
    let n = &cfg.net;
    let mut net = no_words();
    note_if(&mut net, n.drop_ppm > 0, rate_str("drop=", n.drop_ppm).as_str());
    note_if(&mut net, n.duplicate_ppm > 0, rate_str("dup=", n.duplicate_ppm).as_str());
    note_if(&mut net, n.corrupt_ppm > 0, rate_str("corrupt=", n.corrupt_ppm).as_str());
    let d = &cfg.disk;
    let mut disk = no_words();
    note_if(&mut disk, d.io_error_ppm > 0, rate_str("io-error=", d.io_error_ppm).as_str());
    note_if(&mut disk, d.torn_write_ppm > 0, rate_str("torn=", d.torn_write_ppm).as_str());
    note_if(&mut disk, d.lost_write_ppm > 0, rate_str("lost-write=", d.lost_write_ppm).as_str());
    note_if(&mut disk, d.reorder_unsynced, "reorder-unsynced");
    let w = &cfg.workload;
    let mut mix = no_words();
    note_if(&mut mix, w.read_weight > 0, share_str("read:", w.read_weight).as_str());
    note_if(&mut mix, w.write_weight > 0, share_str("write:", w.write_weight).as_str());
    note_if(&mut mix, w.cas_weight > 0, share_str("cas:", w.cas_weight).as_str());
    note_if(&mut mix, w.delete_weight > 0, share_str("delete:", w.delete_weight).as_str());
    let mut s = own("  seed=");
    put_num(&mut s, cfg.seed);
    s.append(" servers=");
    put_num(&mut s, cfg.servers as u64);
    s.append(" clients=");
    put_num(&mut s, cfg.clients as u64);
    s.append(" keys=");
    put_num(&mut s, cfg.workload.keys as u64);
    s.append(" duration=");
    put_num(&mut s, cfg.duration / MILLIS);
    s.append("ms settle=");
    put_num(&mut s, cfg.settle / MILLIS);
    s.append("ms\n  faults=[");
    s.append(join_str(&faults, ", ").as_str());
    s.append("]\n  net=[");
    s.append(join_str(&net, ", ").as_str());
    s.append("]\n  disk=[");
    s.append(join_str(&disk, ", ").as_str());
    s.append("]\n  workload=[");
    s.append(join_str(&mix, ", ").as_str());
    s.append("]");
    s
}

// ---- shrinking -------------------------------------------------------------

#[derive(Debug)]
pub struct ShrinkResult {
    pub original: SimConfig,
    pub minimal: SimConfig,
    /// The failure kind that had to be preserved.
    pub signature: &'static str,
    /// Configurations tried.
    pub attempts: usize,
    /// Configurations that reproduced the failure and were adopted.
    pub steps: usize,
    /// Human-readable account of what was removed.
    pub removed: Vec<String>,
    pub outcome: RunOutcome,
}

/// How far shrinking has come, as a mathematical value.
#[verifier::ext_equal]
pub struct ShrinkView {
    pub original: SimConfig,
    pub minimal: SimConfig,
    pub signature: Seq<char>,
    pub attempts: nat,
    pub steps: nat,
    pub removed: Seq<Seq<char>>,
    pub outcome: RunView,
}

impl View for ShrinkResult {
    type V = ShrinkView;

    open spec fn view(&self) -> ShrinkView {
        ShrinkView {
            original: self.original,
            minimal: self.minimal,
            signature: self.signature@,
            attempts: self.attempts as nat,
            steps: self.steps as nat,
            removed: texts(self.removed@),
            outcome: self.outcome@,
        }
    }
}

/// Items as a list of points.
pub open spec fn points(items: Seq<Seq<char>>) -> Seq<char>
    decreases items.len(),
{
    if items.len() == 0 {
        ""@
    } else {
        points(items.drop_last()) + "  - "@ + items.last() + "\n"@
    }
}

impl ShrinkView {
    /// Nothing taken away yet.
    pub open spec fn start(cfg: SimConfig) -> ShrinkView {
        let outcome = run_of(cfg.normalised());
        ShrinkView {
            original: cfg,
            minimal: cfg.normalised(),
            signature: outcome.signature(),
            attempts: 0,
            steps: 0,
            removed: Seq::empty(),
            outcome,
        }
    }

    /// A simplification tried: it is kept where the run still fails the same
    /// way.
    pub open spec fn tried(self, c: Candidate) -> ShrinkView {
        if !c.applies(self.minimal) {
            self
        } else {
            let next = c.simplified(self.minimal);
            let outcome = run_of(next);
            if outcome.failed() && outcome.signature() == self.signature {
                ShrinkView {
                    minimal: next,
                    attempts: self.attempts + 1,
                    steps: self.steps + 1,
                    removed: self.removed.push(c.words()),
                    outcome,
                    ..self
                }
            } else {
                ShrinkView { attempts: self.attempts + 1, ..self }
            }
        }
    }

    /// The simplifications from place `i` on tried in turn, and whether the
    /// budget ran out.
    pub open spec fn passed(self, budget: nat, i: int) -> (ShrinkView, bool)
        decreases all_candidates().len() - i,
    {
        if i >= all_candidates().len() {
            (self, false)
        } else if self.attempts >= budget {
            (self, true)
        } else {
            self.tried(all_candidates()[i]).passed(budget, i + 1)
        }
    }

    /// Passes made until a whole one changes nothing or the budget runs out.
    pub open spec fn shrunk(self, budget: nat) -> (ShrinkView, bool)
        decreases weight(self.minimal),
        via ShrinkView::shrunk_ends
    {
        let (next, spent) = self.passed(budget, 0);
        if spent || next.steps == self.steps {
            (next, spent)
        } else {
            next.shrunk(budget)
        }
    }

    #[via_fn]
    proof fn shrunk_ends(self, budget: nat) {
        lemma_pass(self, budget, 0);
    }

    /// The result in words.
    pub open spec fn text(self) -> Seq<char> {
        let head = "shrank seed "@ + decimal(self.original.seed as nat) + " ["@ + self.signature
            + "] in "@ + decimal(self.steps) + " steps ("@ + decimal(self.attempts)
            + " candidates tried)\n"@ + "\nminimal reproduction:\n"@ + description(self.minimal)
            + "\n"@;
        let listed = if self.removed.len() > 0 {
            head + "removed along the way:\n"@ + points(self.removed)
        } else {
            head
        };
        listed + "\nfailure:\n"@ + self.outcome.detail() + "\n"@
    }
}

/// A pass keeps the identity of the failure, only ever takes away, and takes
/// something away for every step it reports.
proof fn lemma_pass(s: ShrinkView, budget: nat, i: int)
    requires
        0 <= i,
    ensures
        ({
            let next = s.passed(budget, i).0;
            &&& next.original == s.original
            &&& next.signature == s.signature
            &&& next.steps >= s.steps
            &&& next.steps - s.steps == next.removed.len() - s.removed.len()
            &&& next.steps - s.steps <= next.attempts - s.attempts
            &&& next.attempts >= s.attempts
            &&& weight(next.minimal) <= weight(s.minimal)
            &&& next.steps != s.steps ==> weight(next.minimal) < weight(s.minimal)
            &&& next.steps == s.steps ==> next.minimal == s.minimal && next.outcome == s.outcome
            &&& s.attempts <= budget ==> next.attempts <= budget
            &&& s.minimal.runnable() ==> next.minimal.runnable()
            &&& next.minimal.seed == s.minimal.seed
            &&& s.holds() ==> next.holds()
        }),
    decreases all_candidates().len() - i,
{
    if i < all_candidates().len() && s.attempts < budget {
        let c = all_candidates()[i];
        if c.applies(s.minimal) {
            law_candidates_simplify(c, s.minimal);
        }
        lemma_pass(s.tried(c), budget, i + 1);
    }
}

impl ShrinkView {
    /// The configuration reached fails, and fails the way the first one did.
    pub open spec fn holds(self) -> bool {
        &&& self.outcome == run_of(self.minimal)
        &&& self.outcome.failed()
        &&& self.outcome.signature() == self.signature
    }
}

/// Whether a logger was handed a line.
#[verifier::opaque]
pub open spec fn told<F: FnMut(&str)>(log: F, line: Seq<char>) -> bool {
    exists|s: &str| s@ == line && #[trigger] call_ensures(log, (s,), ())
}

proof fn lemma_told<F: FnMut(&str)>(log: F, s: &str)
    requires
        call_ensures(log, (s,), ()),
    ensures
        told(log, s@),
{
    reveal(told);
}

/// The line that says nothing fails.
pub open spec fn passing_line(seed: u64) -> Seq<char> {
    "seed "@ + decimal(seed as nat) + " does not fail with this configuration; nothing to shrink"@
}

/// The line that says what is being shrunk.
pub open spec fn starting_line(seed: u64, signature: Seq<char>) -> Seq<char> {
    "shrinking seed "@ + decimal(seed as nat) + " failing as ["@ + signature + "]"@
}

/// The line that says what was taken away.
pub open spec fn kept_line(words: Seq<char>) -> Seq<char> {
    "  kept: "@ + words
}

impl ShrinkResult {
    pub fn render(&self) -> (r: String)
        ensures
            r@ == self@.text(),
    {
        let mut s = own("shrank seed ");
        put_num(&mut s, self.original.seed);
        s.append(" [");
        s.append(self.signature);
        s.append("] in ");
        put_num(&mut s, self.steps as u64);
        s.append(" steps (");
        put_num(&mut s, self.attempts as u64);
        s.append(" candidates tried)\n");
        s.append("\nminimal reproduction:\n");
        s.append(describe(&self.minimal).as_str());
        s.append("\n");
        if self.removed.len() > 0 {
            s.append("removed along the way:\n");
            s.append(points_str(&self.removed).as_str());
        }
        s.append("\nfailure:\n");
        s.append(self.outcome.detail().as_str());
        s.append("\n");
        s
    }

    /// Try one simplification; returns whether it was kept.
    fn attempt(&mut self, c: Candidate) -> (r: bool)
        requires
            old(self).minimal.runnable(),
            old(self).attempts < usize::MAX,
            old(self).steps <= old(self).attempts,
        ensures
            final(self)@ == old(self)@.tried(c),
            r == (final(self)@.steps != old(self)@.steps),
            final(self).signature == old(self).signature,
            final(self).minimal.runnable(),
            final(self).steps <= final(self).attempts <= old(self).attempts + 1,
            r ==> final(self)@.removed == old(self)@.removed.push(c.words()),
            !r ==> final(self)@.removed == old(self)@.removed,
    {
        let next = match c.apply(&self.minimal) {
            Some(next) => next,
            None => {
                return false;
            },
        };
        proof {
            law_candidates_simplify(c, self.minimal);
        }
        self.attempts = self.attempts + 1;
        let outcome = run(next);
        if outcome.failed() && same_str(outcome.signature(), self.signature) {
            self.minimal = next;
            self.outcome = outcome;
            self.steps = self.steps + 1;
            self.removed.push(own(c.label()));
            assert(self@.removed =~= old(self)@.removed.push(c.words()));
            assert(self@ =~= old(self)@.tried(c));
            true
        } else {
            assert(self@ =~= old(self)@.tried(c));
            false
        }
    }
}

fn points_str(items: &Vec<String>) -> (r: String)
    ensures
        r@ == points(texts(items@)),
{
    let ghost all = texts(items@);
    let mut s = own("");
    let mut i: usize = 0;
    while i < items.len()
        invariant
            i <= items@.len(),
            all == texts(items@),
            s@ == points(all.take(i as int)),
        decreases items@.len() - i,
    {
        proof {
            assert(all.take(i + 1).drop_last() =~= all.take(i as int));
            assert(all.take(i + 1).last() == items@[i as int]@);
        }
        s.append("  - ");
        s.append(items[i].as_str());
        s.append("\n");
        i += 1;
    }
    assert(all.take(i as int) =~= all);
    s
}

/// Shrink `cfg`, which must already fail.
///
/// `budget` bounds the number of candidate runs; shrinking is otherwise run to
/// a fixed point.
pub fn shrink<F: FnMut(&str)>(cfg: SimConfig, budget: usize, log: F) -> (r: Option<ShrinkResult>)
    requires
        cfg.runnable(),
        forall|s: &str| #[trigger] call_requires(log, (s,)),
    ensures
        match r {
            None => !run_of(cfg.normalised()).failed() && told(log, passing_line(cfg.seed)),
            Some(s) => {
                &&& run_of(cfg.normalised()).failed()
                &&& s@ == ShrinkView::start(cfg).shrunk(budget as nat).0
                &&& told(log, starting_line(cfg.seed, s@.signature))
                &&& forall|i: int|
                    0 <= i < s@.removed.len() ==> told(log, kept_line(#[trigger] s@.removed[i]))
                &&& ShrinkView::start(cfg).shrunk(budget as nat).1 ==> told(
                    log,
                    "shrink budget exhausted"@,
                )
            },
        },
{
    let mut say = log;
    let mut current = cfg;
    current.normalise();
    let first = run(current);
    if !first.failed() {
        let mut s = own("seed ");
        put_num(&mut s, cfg.seed);
        s.append(" does not fail with this configuration; nothing to shrink");
        let line = s.as_str();
        say(line);
        proof {
            lemma_told(log, line);
        }
        return None;
    }
    let signature = first.signature();
    let mut s = own("shrinking seed ");
    put_num(&mut s, cfg.seed);
    s.append(" failing as [");
    s.append(signature);
    s.append("]");
    let line = s.as_str();
    say(line);
    proof {
        lemma_told(log, line);
    }
    let mut best = ShrinkResult {
        original: cfg,
        minimal: current,
        signature,
        attempts: 0,
        steps: 0,
        removed: Vec::new(),
        outcome: first,
    };
    let ghost start = ShrinkView::start(cfg);
    assert(best@ =~= start);
    let cs = candidates();
    // Keep sweeping the candidate list until a whole pass changes nothing.
    loop
        invariant
            say == log,
            forall|s: &str| #[trigger] call_requires(log, (s,)),
            cs@ == all_candidates(),
            best.minimal.runnable(),
            best.steps <= best.attempts <= budget,
            best@.signature == start.signature,
            best@.shrunk(budget as nat) == start.shrunk(budget as nat),
            start == ShrinkView::start(cfg),
            run_of(cfg.normalised()).failed(),
            told(log, starting_line(cfg.seed, start.signature)),
            forall|i: int|
                0 <= i < best@.removed.len() ==> told(log, kept_line(#[trigger] best@.removed[i])),
        decreases weight(best.minimal),
    {
        let ghost before = best@;
        let steps: usize = best.steps;
        proof {
            lemma_pass(before, budget as nat, 0);
        }
        let mut i: usize = 0;
        while i < cs.len()
            invariant
                say == log,
            forall|s: &str| #[trigger] call_requires(log, (s,)),
                cs@ == all_candidates(),
                i <= cs@.len(),
                best.minimal.runnable(),
                best.steps <= best.attempts <= budget,
                best@.signature == start.signature,
                before.passed(budget as nat, 0) == best@.passed(budget as nat, i as int),
                before.shrunk(budget as nat) == start.shrunk(budget as nat),
                start == ShrinkView::start(cfg),
                run_of(cfg.normalised()).failed(),
                told(log, starting_line(cfg.seed, start.signature)),
                forall|k: int|
                    0 <= k < best@.removed.len() ==> told(
                        log,
                        kept_line(#[trigger] best@.removed[k]),
                    ),
            decreases cs@.len() - i,
        {
            if best.attempts >= budget {
                say("shrink budget exhausted");
                proof {
                    lemma_told(log, "shrink budget exhausted");
                }
                return Some(best);
            }
            let ghost was = best@;
            let c = cs[i];
            if best.attempt(c) {
                let mut t = own("  kept: ");
                t.append(c.label());
                let line = t.as_str();
                say(line);
                proof {
                    lemma_told(log, line);
                }
                assert forall|k: int| 0 <= k < best@.removed.len() implies told(
                    log,
                    kept_line(#[trigger] best@.removed[k]),
                ) by {
                    if k < was.removed.len() {
                        assert(best@.removed[k] == was.removed[k]);
                    }
                }
            }
            i += 1;
        }
        assert(before.passed(budget as nat, 0) == (best@, false));
        if best.steps == steps {
            return Some(best);
        }
    }
}

/// Shorten a duration to the nearest multiple of 100ms, for tidier reports.
pub fn round_duration(d: Nanos) -> (r: Nanos)
    requires
        d <= u64::MAX / TIDY * TIDY,
    ensures
        r % TIDY == 0,
        d <= r < d + TIDY,
{
    let rest: u64 = d % TIDY;
    if rest == 0 {
        d
    } else {
        d - rest + TIDY
    }
}

/// What shrinking ends with fails exactly the way the original did, is never
/// larger than it, and took no more runs than it was allowed. Each step is one
/// thing removed, and one of the runs.
pub proof fn law_shrinking_keeps_the_failure(cfg: SimConfig, budget: nat)
    requires
        run_of(cfg.normalised()).failed(),
    ensures
        ({
            let s = ShrinkView::start(cfg).shrunk(budget).0;
            &&& s.outcome == run_of(s.minimal)
            &&& s.outcome.failed()
            &&& s.outcome.signature() == run_of(cfg.normalised()).signature()
            &&& weight(s.minimal) <= weight(cfg.normalised())
            &&& s.minimal.seed == cfg.seed
            &&& s.attempts <= budget
            &&& s.steps == s.removed.len()
            &&& s.steps <= s.attempts
        }),
{
    lemma_shrunk(ShrinkView::start(cfg), budget);
}

/// Shrinking that did not run out of budget is done: no simplification that is
/// left still fails the same way.
pub proof fn law_shrinking_reaches_a_minimum(cfg: SimConfig, budget: nat, c: Candidate)
    requires
        !ShrinkView::start(cfg).shrunk(budget).1,
        all_candidates().contains(c),
    ensures
        ({
            let s = ShrinkView::start(cfg).shrunk(budget).0;
            let smaller = run_of(c.simplified(s.minimal));
            c.applies(s.minimal) ==> !(smaller.failed() && smaller.signature() == s.signature)
        }),
{
    lemma_minimum(ShrinkView::start(cfg), budget, c);
}

proof fn lemma_shrunk(s: ShrinkView, budget: nat)
    requires
        s.holds(),
        s.attempts <= budget,
    ensures
        ({
            let t = s.shrunk(budget).0;
            &&& t.holds()
            &&& t.signature == s.signature
            &&& weight(t.minimal) <= weight(s.minimal)
            &&& t.minimal.seed == s.minimal.seed
            &&& t.attempts <= budget
            &&& t.steps - s.steps == t.removed.len() - s.removed.len()
            &&& t.steps - s.steps <= t.attempts - s.attempts
        }),
    decreases weight(s.minimal),
{
    lemma_pass(s, budget, 0);
    let (next, spent) = s.passed(budget, 0);
    if !spent && next.steps != s.steps {
        lemma_shrunk(next, budget);
    }
}

proof fn lemma_minimum(s: ShrinkView, budget: nat, c: Candidate)
    requires
        !s.shrunk(budget).1,
        all_candidates().contains(c),
    ensures
        ({
            let t = s.shrunk(budget).0;
            let smaller = run_of(c.simplified(t.minimal));
            c.applies(t.minimal) ==> !(smaller.failed() && smaller.signature() == t.signature)
        }),
    decreases weight(s.minimal),
{
    lemma_pass(s, budget, 0);
    let (next, spent) = s.passed(budget, 0);
    if next.steps != s.steps {
        lemma_minimum(next, budget, c);
    } else {
        let i = choose|i: int| 0 <= i < all_candidates().len() && all_candidates()[i] == c;
        lemma_idle_pass(s, budget, 0, i);
    }
}

/// In a pass that keeps nothing, no simplification fails the same way.
proof fn lemma_idle_pass(s: ShrinkView, budget: nat, from: int, i: int)
    requires
        0 <= from <= i < all_candidates().len(),
        !s.passed(budget, from).1,
        s.passed(budget, from).0.steps == s.steps,
    ensures
        ({
            let c = all_candidates()[i];
            let smaller = run_of(c.simplified(s.minimal));
            c.applies(s.minimal) ==> !(smaller.failed() && smaller.signature() == s.signature)
        }),
    decreases i - from,
{
    let t = s.tried(all_candidates()[from]);
    lemma_pass(t, budget, from + 1);
    if from < i {
        lemma_idle_pass(t, budget, from + 1, i);
    }
}

} // verus!
