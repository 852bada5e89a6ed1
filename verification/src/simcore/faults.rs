//! Fault injection policy: what goes wrong, how often, and within what bounds.
//!
//! The injector decides *what* to do; the layer driving the simulation carries
//! it out, because only that layer knows how to rebuild a node from its disk.
//!
//! Two rules keep runs useful rather than merely brutal:
//!
//! * Faults are confined to a window. After it closes the world heals and every
//!   node comes back, so the run has a quiescent tail in which a correct
//!   cluster must converge. Without that tail, "nothing was answered" would be
//!   indistinguishable from "the data was lost".
//! * By default no more than a minority is unavailable at once. A cluster that
//!   has lost quorum is allowed to stall, so those runs test little. Set
//!   [`FaultConfig::allow_quorum_loss`] to test safety without liveness.

use crate::count::{bump, count_up, widen_product};
use crate::simcore::rng::{law_below_in_range, law_shuffle_permutes, Rng, WORD};
use crate::simcore::{Nanos, NodeId};
use vstd::prelude::*;

verus! {

/// A concrete thing to do to the cluster.
#[derive(Debug, PartialEq, Eq)]
pub enum FaultAction {
    /// Periodic decision point for the injector.
    Tick,
    /// Power loss: volatile state is gone, the disk keeps whatever the crash
    /// model left behind.
    Crash(NodeId),
    /// Bring a crashed node back, recovering its state from disk.
    Restart(NodeId),
    /// Cut the network into groups that cannot talk across the boundary.
    Partition(Vec<Vec<NodeId>>),
    /// Isolate a single node in both directions.
    Isolate(NodeId),
    /// Degrade one direction of one link.
    SlowLink(NodeId, NodeId),
    /// Repair every link.
    HealNetwork,
    /// Step a node's clock. Nothing in a correct consensus implementation may
    /// depend on clocks agreeing.
    ClockJump(NodeId, i64),
    /// End of the fault window: heal everything and restart every node.
    Recover,
}

/// A fault, as a mathematical value.
pub enum FaultView {
    Tick,
    Crash(NodeId),
    Restart(NodeId),
    Partition(Seq<Seq<NodeId>>),
    Isolate(NodeId),
    SlowLink(NodeId, NodeId),
    HealNetwork,
    ClockJump(NodeId, i64),
    Recover,
}

/// The views of a list of groups.
pub open spec fn group_views(groups: Seq<Vec<NodeId>>) -> Seq<Seq<NodeId>> {
    groups.map_values(|g: Vec<NodeId>| g@)
}

impl View for FaultAction {
    type V = FaultView;

    open spec fn view(&self) -> FaultView {
        match self {
            FaultAction::Tick => FaultView::Tick,
            FaultAction::Crash(n) => FaultView::Crash(*n),
            FaultAction::Restart(n) => FaultView::Restart(*n),
            FaultAction::Partition(g) => FaultView::Partition(group_views(g@)),
            FaultAction::Isolate(n) => FaultView::Isolate(*n),
            FaultAction::SlowLink(a, b) => FaultView::SlowLink(*a, *b),
            FaultAction::HealNetwork => FaultView::HealNetwork,
            FaultAction::ClockJump(n, d) => FaultView::ClockJump(*n, *d),
            FaultAction::Recover => FaultView::Recover,
        }
    }
}

/// A copy of `ids[from..to]`.
fn copy_ids(ids: &Vec<NodeId>, from: usize, to: usize) -> (r: Vec<NodeId>)
    requires
        from <= to <= ids@.len(),
    ensures
        r@ == ids@.subrange(from as int, to as int),
{
    let mut out: Vec<NodeId> = Vec::new();
    let mut i: usize = from;
    while i < to
        invariant
            from <= i <= to <= ids@.len(),
            out@ == ids@.subrange(from as int, i as int),
        decreases to - i,
    {
        out.push(ids[i]);
        i += 1;
        assert(out@ =~= ids@.subrange(from as int, i as int));
    }
    out
}

impl Clone for FaultAction {
    fn clone(&self) -> (r: FaultAction)
        ensures
            r@ == self@,
    {
        match self {
            FaultAction::Tick => FaultAction::Tick,
            FaultAction::Crash(n) => FaultAction::Crash(*n),
            FaultAction::Restart(n) => FaultAction::Restart(*n),
            FaultAction::Partition(g) => {
                let mut out: Vec<Vec<NodeId>> = Vec::new();
                let mut i: usize = 0;
                while i < g.len()
                    invariant
                        i <= g@.len(),
                        out@.len() == i,
                        forall|j: int| 0 <= j < i ==> (#[trigger] out@[j])@ == g@[j]@,
                    decreases g@.len() - i,
                {
                    let one = copy_ids(&g[i], 0, g[i].len());
                    assert(one@ =~= g@[i as int]@);
                    out.push(one);
                    i += 1;
                }
                assert(group_views(out@) =~= group_views(g@));
                FaultAction::Partition(out)
            },
            FaultAction::Isolate(n) => FaultAction::Isolate(*n),
            FaultAction::SlowLink(a, b) => FaultAction::SlowLink(*a, *b),
            FaultAction::HealNetwork => FaultAction::HealNetwork,
            FaultAction::ClockJump(n, d) => FaultAction::ClockJump(*n, *d),
            FaultAction::Recover => FaultAction::Recover,
        }
    }
}

/// How the injector behaves.
#[derive(Clone, Copy, Debug, PartialEq, Eq)]
pub struct FaultConfig {
    pub enable_crashes: bool,
    pub enable_partitions: bool,
    pub enable_clock_skew: bool,
    pub enable_slow_links: bool,
    /// Mean gap between fault decisions.
    pub tick_interval: (Nanos, Nanos),
    /// Weights for choosing among enabled fault kinds.
    pub crash_weight: u32,
    pub restart_weight: u32,
    pub partition_weight: u32,
    pub isolate_weight: u32,
    pub slow_link_weight: u32,
    pub clock_jump_weight: u32,
    pub heal_weight: u32,
    /// How long a partition lasts before it is healed automatically.
    pub partition_duration: (Nanos, Nanos),
    /// How long a crashed node stays down before it may restart.
    pub restart_delay: (Nanos, Nanos),
    /// Permit taking down a majority. Safety must still hold; liveness may not.
    pub allow_quorum_loss: bool,
    /// Faults only happen in `[start, end)`; after `end` the world heals.
    pub window: (Nanos, Nanos),
    /// Maximum absolute clock offset handed to a node at startup.
    pub max_clock_skew: Nanos,
    pub max_clock_jump: Nanos,
    /// How often a crash or isolation targets the *leader* rather than a node
    /// picked uniformly at random.
    ///
    /// Uniform faults are good at finding common bugs and bad at finding rare
    /// interleavings. The interesting windows in a consensus protocol are the
    /// ones around a leadership change -- between an election and the new
    /// leader replicating its first entry, say -- and a uniform injector
    /// reaches them only by luck. Aiming at the leader walks the cluster
    /// through those windows deliberately.
    pub leader_bias_ppm: u32,
    /// How often a crash targets a node that is holding unsynced writes.
    ///
    /// A durability bug only bites if the node dies while data it has acted on
    /// is still in the page cache. That window is short, so crashing uniformly
    /// misses it almost every time; aiming at it turns a rare coincidence into
    /// a routine event.
    pub unsynced_bias_ppm: u32,
}

impl Default for FaultConfig {
    fn default() -> (r: FaultConfig)
        ensures
            r == FaultConfig::standard(),
    {
        FaultConfig {
            enable_crashes: true,
            enable_partitions: true,
            enable_clock_skew: true,
            enable_slow_links: true,
            tick_interval: (20_000_000, 400_000_000),
            crash_weight: 30,
            restart_weight: 40,
            partition_weight: 20,
            isolate_weight: 15,
            slow_link_weight: 10,
            clock_jump_weight: 5,
            heal_weight: 25,
            partition_duration: (100_000_000, 3_000_000_000),
            restart_delay: (50_000_000, 2_000_000_000),
            allow_quorum_loss: false,
            window: (500_000_000, 20_000_000_000),
            max_clock_skew: 50_000_000,
            max_clock_jump: 500_000_000,
            leader_bias_ppm: 300_000,
            unsynced_bias_ppm: 500_000,
        }
    }
}

impl FaultConfig {
    /// Every kind of fault, at its usual rate.
    pub open spec fn standard() -> FaultConfig {
        FaultConfig {
            enable_crashes: true,
            enable_partitions: true,
            enable_clock_skew: true,
            enable_slow_links: true,
            tick_interval: (20_000_000, 400_000_000),
            crash_weight: 30,
            restart_weight: 40,
            partition_weight: 20,
            isolate_weight: 15,
            slow_link_weight: 10,
            clock_jump_weight: 5,
            heal_weight: 25,
            partition_duration: (100_000_000, 3_000_000_000),
            restart_delay: (50_000_000, 2_000_000_000),
            allow_quorum_loss: false,
            window: (500_000_000, 20_000_000_000),
            max_clock_skew: 50_000_000,
            max_clock_jump: 500_000_000,
            leader_bias_ppm: 300_000,
            unsynced_bias_ppm: 500_000,
        }
    }

    /// No faults at all.
    pub open spec fn quiet() -> FaultConfig {
        FaultConfig {
            enable_crashes: false,
            enable_partitions: false,
            enable_clock_skew: false,
            enable_slow_links: false,
            window: (u64::MAX, u64::MAX),
            ..FaultConfig::standard()
        }
    }

    /// Whether any kind of fault is enabled.
    pub open spec fn some_enabled(self) -> bool {
        self.enable_crashes || self.enable_partitions || self.enable_clock_skew
            || self.enable_slow_links
    }

    /// No faults at all. A failing seed that still fails under this config is
    /// a plain logic bug, not a fault-handling bug.
    pub fn none() -> (r: FaultConfig)
        ensures
            r == FaultConfig::quiet(),
    {
        let mut cfg = FaultConfig::default();
        cfg.enable_crashes = false;
        cfg.enable_partitions = false;
        cfg.enable_clock_skew = false;
        cfg.enable_slow_links = false;
        cfg.window = (u64::MAX, u64::MAX);
        cfg
    }

    pub fn any_enabled(&self) -> (r: bool)
        ensures
            r == self.some_enabled(),
    {
        self.enable_crashes || self.enable_partitions || self.enable_clock_skew
            || self.enable_slow_links
    }
}

/// A node's private view of time: a fixed offset plus a linear drift.
#[derive(Clone, Copy, Debug, PartialEq, Eq)]
pub struct ClockSkew {
    pub offset: i64,
    pub drift_ppm: i64,
}

impl Default for ClockSkew {
    fn default() -> (r: ClockSkew)
        ensures
            r == (ClockSkew { offset: 0, drift_ppm: 0 }),
    {
        ClockSkew { offset: 0, drift_ppm: 0 }
    }
}

/// How far a clock has drifted, rounded toward zero.
pub open spec fn drift(time: u64, ppm: i64) -> int {
    if ppm >= 0 {
        (time * ppm) / 1_000_000
    } else {
        -((time * -ppm) / 1_000_000)
    }
}

/// A magnitude with a sign; a magnitude too large for one is cut to the
/// largest.
pub open spec fn signed(mag: u64, negative: bool) -> i64 {
    let m = if mag > i64::MAX {
        i64::MAX
    } else {
        mag as i64
    };
    if negative {
        (-m) as i64
    } else {
        m
    }
}

fn with_sign(mag: u64, negative: bool) -> (r: i64)
    ensures
        r == signed(mag, negative),
{
    let m: i64 = if mag > i64::MAX as u64 {
        i64::MAX
    } else {
        mag as i64
    };
    if negative {
        -m
    } else {
        m
    }
}

impl ClockSkew {
    /// What this clock shows at a true time.
    pub open spec fn shows(self, time: Nanos) -> Nanos {
        let t = time + self.offset + drift(time, self.drift_ppm);
        if t < 0 {
            0
        } else {
            (t % (WORD as int)) as u64
        }
    }

    /// Translate true simulation time into what this node believes it is.
    pub fn apply(&self, true_time: Nanos) -> (r: Nanos)
        ensures
            r == self.shows(true_time),
    {
        let neg = self.drift_ppm < 0;
        let rate: u64 = if neg {
            (-(self.drift_ppm as i128)) as u64
        } else {
            self.drift_ppm as u64
        };
        let whole: u128 = widen_product(true_time, rate);
        assert(whole <= u64::MAX * 0x8000_0000_0000_0000) by (nonlinear_arith)
            requires
                whole == true_time * rate,
                0 <= true_time <= u64::MAX,
                0 <= rate <= 0x8000_0000_0000_0000,
        ;
        let part: i128 = (whole / 1_000_000) as i128;
        let moved: i128 = if neg {
            -part
        } else {
            part
        };
        let t: i128 = true_time as i128 + self.offset as i128 + moved;
        if t < 0 {
            0
        } else {
            ((t as u128) % WORD) as u64
        }
    }

    /// A random clock, and the generator after it.
    pub open spec fn random_of(rng: Rng, max_offset: Nanos) -> (ClockSkew, Rng) {
        let (mag, r) = rng.upto_of(max_offset);
        let (negative, q) = r.chance_of(500_000);
        let (d, z) = q.range_of(0, 400);
        (ClockSkew { offset: signed(mag, negative), drift_ppm: (d - 200) as i64 }, z)
    }

    pub fn random(rng: &mut Rng, max_offset: Nanos) -> (r: ClockSkew)
        ensures
            (r, *final(rng)) == ClockSkew::random_of(*old(rng), max_offset),
    {
        let mag: u64 = rng.range(0, max_offset);
        let negative = rng.chance_ppm(500_000);
        let offset: i64 = with_sign(mag, negative);
        // +/- 200 ppm is roughly a bad-but-real crystal.
        let d: u64 = rng.range(0, 400);
        ClockSkew { offset, drift_ppm: d as i64 - 200 }
    }
}

/// What the injector has done.
#[derive(Clone, Copy, Debug, PartialEq, Eq)]
pub struct FaultStats {
    pub ticks: u64,
    pub crashes: u64,
    pub restarts: u64,
    pub partitions: u64,
    pub isolations: u64,
    pub heals: u64,
    pub clock_jumps: u64,
    pub slow_links: u64,
    /// Faults aimed at the leader rather than a random node.
    pub leader_targeted: u64,
    /// Crashes aimed at a node holding unsynced writes.
    pub unsynced_targeted: u64,
}

impl FaultStats {
    /// Nothing has happened yet.
    pub open spec fn zero() -> FaultStats {
        FaultStats {
            ticks: 0,
            crashes: 0,
            restarts: 0,
            partitions: 0,
            isolations: 0,
            heals: 0,
            clock_jumps: 0,
            slow_links: 0,
            leader_targeted: 0,
            unsynced_targeted: 0,
        }
    }
}

impl Default for FaultStats {
    fn default() -> (r: FaultStats)
        ensures
            r == FaultStats::zero(),
    {
        FaultStats {
            ticks: 0,
            crashes: 0,
            restarts: 0,
            partitions: 0,
            isolations: 0,
            heals: 0,
            clock_jumps: 0,
            slow_links: 0,
            leader_targeted: 0,
            unsynced_targeted: 0,
        }
    }
}

/// What the driver knows about the cluster, for aiming faults.
///
/// The injector deliberately knows nothing about consensus; this is the narrow
/// channel through which the layer that *does* know can say where a fault would
/// be most revealing.
pub struct FaultHint<'a> {
    /// Whoever currently believes they are leading, if anyone.
    pub leader: Option<NodeId>,
    /// Per node: is it holding writes it has not synced?
    pub unsynced: &'a [bool],
}

impl<'a> Default for FaultHint<'a> {
    fn default() -> (r: FaultHint<'a>)
        ensures
            r.leader is None,
            r.unsynced@.len() == 0,
    {
        FaultHint { leader: None, unsynced: &[] }
    }
}

/// The kinds of fault there are to choose from.
#[derive(Clone, Copy, Debug, PartialEq, Eq, Structural)]
pub enum FaultChoice {
    Crash,
    Restart,
    Partition,
    Isolate,
    Heal,
    SlowLink,
    ClockJump,
}

/// The nodes whose flag is `want`, among the first `n`.
pub open spec fn nodes_with(flags: Seq<bool>, want: bool, n: int) -> Seq<NodeId>
    decreases n,
{
    if n <= 0 {
        Seq::empty()
    } else if flags[n - 1] == want {
        nodes_with(flags, want, n - 1).push(NodeId((n - 1) as u32))
    } else {
        nodes_with(flags, want, n - 1)
    }
}

/// The nodes of a list whose flag is set.
pub open spec fn flagged(ids: Seq<NodeId>, flags: Seq<bool>) -> Seq<NodeId>
    decreases ids.len(),
{
    if ids.len() == 0 {
        Seq::empty()
    } else {
        let rest = flagged(ids.drop_last(), flags);
        let i = ids.last().0 as int;
        if i < flags.len() && flags[i] {
            rest.push(ids.last())
        } else {
            rest
        }
    }
}

/// The first `n` nodes.
pub open spec fn all_ids(n: nat) -> Seq<NodeId> {
    Seq::new(n, |i: int| NodeId(i as u32))
}

/// The weights of a menu added up.
pub open spec fn menu_total(menu: Seq<(u32, FaultChoice)>) -> nat
    decreases menu.len(),
{
    if menu.len() == 0 {
        0
    } else {
        menu_total(menu.drop_last()) + menu.last().0 as nat
    }
}

/// The entry of a menu that `pick` falls into, counting weights from place `i`.
pub open spec fn menu_entry(menu: Seq<(u32, FaultChoice)>, i: int, pick: int) -> Option<FaultChoice>
    decreases menu.len() - i,
{
    if i >= menu.len() {
        None
    } else if pick < menu[i].0 {
        Some(menu[i].1)
    } else {
        menu_entry(menu, i + 1, pick - menu[i].0)
    }
}

/// Choose from a menu by weight.
pub open spec fn weighted(rng: Rng, menu: Seq<(u32, FaultChoice)>) -> (Option<FaultChoice>, Rng) {
    let total = menu_total(menu);
    if total == 0 {
        (None, rng)
    } else {
        let (pick, r) = rng.below_of(total as u64);
        (menu_entry(menu, 0, pick as int), r)
    }
}

/// `menu` with one more entry where `on` holds.
pub open spec fn offer(
    menu: Seq<(u32, FaultChoice)>,
    on: bool,
    weight: u32,
    choice: FaultChoice,
) -> Seq<(u32, FaultChoice)> {
    if on {
        menu.push((weight, choice))
    } else {
        menu
    }
}

/// A uniformly chosen node of a list that is not empty.
pub open spec fn pick_of(rng: Rng, ids: Seq<NodeId>) -> (NodeId, Rng) {
    let (i, r) = rng.below_of(ids.len() as u64);
    (ids[i as int], r)
}

/// What a decision comes to.
pub struct Decision {
    pub injector: FaultInjector,
    pub rng: Rng,
    pub action: Option<FaultView>,
}

/// Decides which faults happen.
#[derive(Clone, Copy, Debug)]
pub struct FaultInjector {
    pub cfg: FaultConfig,
    pub stats: FaultStats,
    pub recovered: bool,
}

impl FaultInjector {
    /// How many nodes may be down at once.
    pub open spec fn down_limit(self, n: nat) -> nat {
        if n == 0 {
            0
        } else if self.cfg.allow_quorum_loss {
            (n - 1) as nat
        } else {
            ((n - 1) / 2) as nat
        }
    }

    /// The faults that are legal now, with their weights.
    pub open spec fn menu(self, up: Seq<bool>) -> Seq<(u32, FaultChoice)> {
        let c = self.cfg;
        let n = up.len();
        let down = nodes_with(up, false, n as int);
        let alive = nodes_with(up, true, n as int);
        let crash = c.enable_crashes && down.len() < self.down_limit(n) && alive.len() > 0;
        let split = c.enable_partitions && n >= 2;
        let m1 = offer(Seq::empty(), crash, c.crash_weight, FaultChoice::Crash);
        let m2 = offer(
            m1,
            c.enable_crashes && down.len() > 0,
            c.restart_weight,
            FaultChoice::Restart,
        );
        let m3 = offer(m2, split, c.partition_weight, FaultChoice::Partition);
        let m4 = offer(m3, split, c.isolate_weight, FaultChoice::Isolate);
        let m5 = offer(m4, split, c.heal_weight, FaultChoice::Heal);
        let m6 = offer(
            m5,
            c.enable_slow_links && n >= 2,
            c.slow_link_weight,
            FaultChoice::SlowLink,
        );
        offer(m6, c.enable_clock_skew, c.clock_jump_weight, FaultChoice::ClockJump)
    }

    /// The injector with other counts.
    pub open spec fn counted(self, stats: FaultStats) -> FaultInjector {
        FaultInjector { stats, ..self }
    }

    /// Aim a crash: at the leader, at a node holding unsynced writes, or at
    /// anyone alive.
    pub open spec fn aim_crash(
        self,
        rng: Rng,
        alive: Seq<NodeId>,
        leader: Option<NodeId>,
        unsynced: Seq<bool>,
    ) -> Decision {
        let stats = FaultStats { crashes: bump(self.stats.crashes), ..self.stats };
        let dirty = flagged(alive, unsynced);
        let can_lead = leader is Some && alive.contains(leader->Some_0);
        let (at_leader, r) = if can_lead {
            rng.chance_of(self.cfg.leader_bias_ppm)
        } else {
            (false, rng)
        };
        if at_leader {
            Decision {
                injector: self.counted(
                    FaultStats { leader_targeted: bump(stats.leader_targeted), ..stats },
                ),
                rng: r,
                action: Some(FaultView::Crash(leader->Some_0)),
            }
        } else {
            let (at_dirty, q) = if dirty.len() > 0 {
                r.chance_of(self.cfg.unsynced_bias_ppm)
            } else {
                (false, r)
            };
            if at_dirty {
                let (target, z) = pick_of(q, dirty);
                Decision {
                    injector: self.counted(
                        FaultStats { unsynced_targeted: bump(stats.unsynced_targeted), ..stats },
                    ),
                    rng: z,
                    action: Some(FaultView::Crash(target)),
                }
            } else {
                let (target, z) = pick_of(q, alive);
                Decision {
                    injector: self.counted(stats),
                    rng: z,
                    action: Some(FaultView::Crash(target)),
                }
            }
        }
    }

    /// Split the nodes in two at random.
    pub open spec fn split(self, rng: Rng, n: nat) -> Decision {
        let (ids, r) = rng.shuffled(all_ids(n), n - 1);
        let (k, q) = r.below_of((n - 1) as u64);
        let cut = 1 + k;
        Decision {
            injector: self.counted(
                FaultStats { partitions: bump(self.stats.partitions), ..self.stats },
            ),
            rng: q,
            action: Some(
                FaultView::Partition(seq![ids.subrange(0, cut), ids.subrange(cut, n as int)]),
            ),
        }
    }

    /// Aim an isolation: at the leader, or at anyone.
    pub open spec fn aim_isolation(self, rng: Rng, n: nat, leader: Option<NodeId>) -> Decision {
        let stats = FaultStats { isolations: bump(self.stats.isolations), ..self.stats };
        let (at_leader, r) = if leader is Some {
            rng.chance_of(self.cfg.leader_bias_ppm)
        } else {
            (false, rng)
        };
        if at_leader {
            Decision {
                injector: self.counted(
                    FaultStats { leader_targeted: bump(stats.leader_targeted), ..stats },
                ),
                rng: r,
                action: Some(FaultView::Isolate(leader->Some_0)),
            }
        } else {
            let (i, q) = r.below_of(n as u64);
            Decision {
                injector: self.counted(stats),
                rng: q,
                action: Some(FaultView::Isolate(NodeId(i as u32))),
            }
        }
    }

    /// Carry out a choice from the menu.
    pub open spec fn perform(
        self,
        rng: Rng,
        choice: FaultChoice,
        up: Seq<bool>,
        leader: Option<NodeId>,
        unsynced: Seq<bool>,
    ) -> Decision {
        let n = up.len();
        match choice {
            FaultChoice::Crash => self.aim_crash(
                rng,
                nodes_with(up, true, n as int),
                leader,
                unsynced,
            ),
            FaultChoice::Restart => {
                let (target, r) = pick_of(rng, nodes_with(up, false, n as int));
                Decision {
                    injector: self.counted(
                        FaultStats { restarts: bump(self.stats.restarts), ..self.stats },
                    ),
                    rng: r,
                    action: Some(FaultView::Restart(target)),
                }
            },
            FaultChoice::Partition => self.split(rng, n),
            FaultChoice::Isolate => self.aim_isolation(rng, n, leader),
            FaultChoice::Heal => Decision {
                injector: self.counted(
                    FaultStats { heals: bump(self.stats.heals), ..self.stats },
                ),
                rng,
                action: Some(FaultView::HealNetwork),
            },
            FaultChoice::SlowLink => {
                let (a, r) = rng.below_of(n as u64);
                let (b, q) = r.below_of(n as u64);
                let c = if a == b {
                    (b + 1) % (n as int)
                } else {
                    b as int
                };
                Decision {
                    injector: self.counted(
                        FaultStats { slow_links: bump(self.stats.slow_links), ..self.stats },
                    ),
                    rng: q,
                    action: Some(FaultView::SlowLink(NodeId(a as u32), NodeId(c as u32))),
                }
            },
            FaultChoice::ClockJump => {
                let (mag, r) = rng.upto_of(self.cfg.max_clock_jump);
                let (negative, q) = r.chance_of(500_000);
                let (i, z) = q.below_of(n as u64);
                Decision {
                    injector: self.counted(
                        FaultStats { clock_jumps: bump(self.stats.clock_jumps), ..self.stats },
                    ),
                    rng: z,
                    action: Some(FaultView::ClockJump(NodeId(i as u32), signed(mag, negative))),
                }
            },
        }
    }

    /// The next fault, given who is up and what the driver knows.
    pub open spec fn decision(
        self,
        rng: Rng,
        now: Nanos,
        up: Seq<bool>,
        leader: Option<NodeId>,
        unsynced: Seq<bool>,
    ) -> Decision {
        if now >= self.cfg.window.1 {
            Decision {
                injector: FaultInjector { recovered: true, ..self },
                rng,
                action: if self.recovered {
                    None
                } else {
                    Some(FaultView::Recover)
                },
            }
        } else if now < self.cfg.window.0 || !self.cfg.some_enabled() {
            Decision { injector: self, rng, action: None }
        } else {
            let ticked = self.counted(FaultStats { ticks: bump(self.stats.ticks), ..self.stats });
            let (choice, r) = weighted(rng, self.menu(up));
            match choice {
                None => Decision { injector: ticked, rng: r, action: None },
                Some(c) => ticked.perform(r, c, up, leader, unsynced),
            }
        }
    }

    pub fn new(cfg: FaultConfig) -> (r: FaultInjector)
        ensures
            r == (FaultInjector { cfg, stats: FaultStats::zero(), recovered: false }),
    {
        FaultInjector { cfg, stats: FaultStats::default(), recovered: false }
    }

    pub fn config(&self) -> (r: &FaultConfig)
        ensures
            *r == self.cfg,
    {
        &self.cfg
    }

    pub fn stats(&self) -> (r: FaultStats)
        ensures
            r == self.stats,
    {
        self.stats
    }

    pub fn recovered(&self) -> (r: bool)
        ensures
            r == self.recovered,
    {
        self.recovered
    }

    /// When the next decision point should fire.
    pub fn next_tick_delay(&self, rng: &mut Rng) -> (r: Nanos)
        ensures
            (r, *final(rng)) == old(rng).range_of(self.cfg.tick_interval.0, self.cfg.tick_interval.1),
    {
        rng.range(self.cfg.tick_interval.0, self.cfg.tick_interval.1)
    }

    pub fn window_start(&self) -> (r: Nanos)
        ensures
            r == self.cfg.window.0,
    {
        self.cfg.window.0
    }

    pub fn window_end(&self) -> (r: Nanos)
        ensures
            r == self.cfg.window.1,
    {
        self.cfg.window.1
    }

    /// How many nodes may be down simultaneously.
    fn max_down(&self, n: usize) -> (r: usize)
        ensures
            r == self.down_limit(n as nat),
    {
        if n == 0 {
            0
        } else if self.cfg.allow_quorum_loss {
            n - 1
        } else {
            (n - 1) / 2
        }
    }

    /// Choose the next fault, given who is currently up.
    ///
    /// `None` means "do nothing this tick", which is itself important: a
    /// cluster that is never left alone never gets to demonstrate progress.
    ///
    /// `hint` is what the driver knows about the cluster right now. It is used
    /// to aim faults rather than scatter them: see [`FaultHint`].
    pub fn decide(
        &mut self,
        rng: &mut Rng,
        now: Nanos,
        up: &[bool],
        hint: &FaultHint,
    ) -> (r: Option<FaultAction>)
        ensures
            ({
                let d = old(self).decision(*old(rng), now, up@, hint.leader, hint.unsynced@);
                &&& *final(self) == d.injector
                &&& *final(rng) == d.rng
                &&& match r {
                    Some(a) => d.action == Some(a@),
                    None => d.action is None,
                }
            }),
    {
        if now >= self.cfg.window.1 {
            if !self.recovered {
                self.recovered = true;
                return Some(FaultAction::Recover);
            }
            return None;
        }
        if now < self.cfg.window.0 || !self.cfg.any_enabled() {
            return None;
        }
        let menu = self.build_menu(up);
        self.stats.ticks = count_up(self.stats.ticks);
        let choice = match weighted_pick(rng, &menu) {
            Some(c) => c,
            None => return None,
        };
        proof {
            law_menu_offers(*old(self), up@, choice);
            lemma_weighted_member(*old(rng), old(self).menu(up@));
        }
        Some(self.carry_out(rng, choice, up, hint))
    }

    fn build_menu(&self, up: &[bool]) -> (menu: Vec<(u32, FaultChoice)>)
        ensures
            menu@ == self.menu(up@),
    {
        let n: usize = up.len();
        let down: usize = collect_nodes(up, false).len();
        let alive: usize = collect_nodes(up, true).len();
        let c = &self.cfg;
        let mut menu: Vec<(u32, FaultChoice)> = Vec::new();
        if c.enable_crashes {
            if down < self.max_down(n) && alive > 0 {
                menu.push((c.crash_weight, FaultChoice::Crash));
            }
            if down > 0 {
                menu.push((c.restart_weight, FaultChoice::Restart));
            }
        }
        if c.enable_partitions && n >= 2 {
            menu.push((c.partition_weight, FaultChoice::Partition));
            menu.push((c.isolate_weight, FaultChoice::Isolate));
            menu.push((c.heal_weight, FaultChoice::Heal));
        }
        if c.enable_slow_links && n >= 2 {
            menu.push((c.slow_link_weight, FaultChoice::SlowLink));
        }
        if c.enable_clock_skew {
            menu.push((c.clock_jump_weight, FaultChoice::ClockJump));
        }
        menu
    }

    fn carry_out(&mut self, rng: &mut Rng, choice: FaultChoice, up: &[bool], hint: &FaultHint) -> (r:
        FaultAction)
        requires
            choice is Crash ==> nodes_with(up@, true, up@.len() as int).len() > 0,
            choice is Restart ==> nodes_with(up@, false, up@.len() as int).len() > 0,
            choice is Partition || choice is Isolate || choice is SlowLink ==> up@.len() >= 2,
        ensures
            (Decision { injector: *final(self), rng: *final(rng), action: Some(r@) }) == old(
                self,
            ).perform(*old(rng), choice, up@, hint.leader, hint.unsynced@),
    {
        let n: usize = up.len();
        match choice {
            FaultChoice::Crash => {
                // Aim, in order of how much a crash there is likely to reveal:
                // the leader, then whoever is holding unsynced writes, then
                // anyone at all.
                let alive = collect_nodes(up, true);
                self.stats.crashes = count_up(self.stats.crashes);
                let dirty = collect_flagged(&alive, hint.unsynced);
                if let Some(l) = hint.leader {
                    if has_node(&alive, l) && rng.chance_ppm(self.cfg.leader_bias_ppm) {
                        self.stats.leader_targeted = count_up(self.stats.leader_targeted);
                        return FaultAction::Crash(l);
                    }
                }
                if dirty.len() > 0 && rng.chance_ppm(self.cfg.unsynced_bias_ppm) {
                    self.stats.unsynced_targeted = count_up(self.stats.unsynced_targeted);
                    return FaultAction::Crash(draw_node(rng, &dirty));
                }
                FaultAction::Crash(draw_node(rng, &alive))
            },
            FaultChoice::Restart => {
                let down = collect_nodes(up, false);
                self.stats.restarts = count_up(self.stats.restarts);
                FaultAction::Restart(draw_node(rng, &down))
            },
            FaultChoice::Partition => {
                self.stats.partitions = count_up(self.stats.partitions);
                let mut ids = number_nodes(n);
                let ghost r0 = *rng;
                rng.shuffle(&mut ids);
                proof {
                    law_shuffle_permutes(r0, all_ids(n as nat));
                }
                // A split anywhere in 1..n, so both majority/minority splits
                // and even splits all occur.
                let cut: usize = 1 + rng.below(n as u64 - 1) as usize;
                let mut groups: Vec<Vec<NodeId>> = Vec::new();
                groups.push(copy_ids(&ids, 0, cut));
                groups.push(copy_ids(&ids, cut, n));
                assert(group_views(groups@) =~= seq![
                    ids@.subrange(0, cut as int),
                    ids@.subrange(cut as int, n as int),
                ]);
                FaultAction::Partition(groups)
            },
            FaultChoice::Isolate => {
                self.stats.isolations = count_up(self.stats.isolations);
                if let Some(l) = hint.leader {
                    if rng.chance_ppm(self.cfg.leader_bias_ppm) {
                        self.stats.leader_targeted = count_up(self.stats.leader_targeted);
                        return FaultAction::Isolate(l);
                    }
                }
                FaultAction::Isolate(NodeId(rng.below(n as u64) as u32))
            },
            FaultChoice::Heal => {
                self.stats.heals = count_up(self.stats.heals);
                FaultAction::HealNetwork
            },
            FaultChoice::SlowLink => {
                self.stats.slow_links = count_up(self.stats.slow_links);
                let a: u64 = rng.below(n as u64);
                let mut b: u64 = rng.below(n as u64);
                if a == b {
                    b = (b + 1) % (n as u64);
                }
                FaultAction::SlowLink(NodeId(a as u32), NodeId(b as u32))
            },
            FaultChoice::ClockJump => {
                self.stats.clock_jumps = count_up(self.stats.clock_jumps);
                let mag: u64 = rng.range(0, self.cfg.max_clock_jump);
                let negative = rng.chance_ppm(500_000);
                let jump: i64 = with_sign(mag, negative);
                FaultAction::ClockJump(NodeId(rng.below(n as u64) as u32), jump)
            },
        }
    }

    pub fn restart_delay(&self, rng: &mut Rng) -> (r: Nanos)
        ensures
            (r, *final(rng)) == old(rng).range_of(self.cfg.restart_delay.0, self.cfg.restart_delay.1),
    {
        rng.range(self.cfg.restart_delay.0, self.cfg.restart_delay.1)
    }

    pub fn partition_duration(&self, rng: &mut Rng) -> (r: Nanos)
        ensures
            (r, *final(rng)) == old(rng).range_of(
                self.cfg.partition_duration.0,
                self.cfg.partition_duration.1,
            ),
    {
        rng.range(self.cfg.partition_duration.0, self.cfg.partition_duration.1)
    }
}

fn collect_nodes(flags: &[bool], want: bool) -> (r: Vec<NodeId>)
    ensures
        r@ == nodes_with(flags@, want, flags@.len() as int),
{
    let mut out: Vec<NodeId> = Vec::new();
    let mut i: usize = 0;
    while i < flags.len()
        invariant
            i <= flags@.len(),
            out@ == nodes_with(flags@, want, i as int),
        decreases flags@.len() - i,
    {
        if flags[i] == want {
            out.push(NodeId(i as u32));
        }
        i += 1;
    }
    out
}

fn collect_flagged(ids: &Vec<NodeId>, flags: &[bool]) -> (r: Vec<NodeId>)
    ensures
        r@ == flagged(ids@, flags@),
{
    let mut out: Vec<NodeId> = Vec::new();
    let mut i: usize = 0;
    while i < ids.len()
        invariant
            i <= ids@.len(),
            out@ == flagged(ids@.take(i as int), flags@),
        decreases ids@.len() - i,
    {
        proof {
            let t = ids@.take(i + 1);
            assert(t.drop_last() =~= ids@.take(i as int));
            assert(t.last() == ids@[i as int]);
        }
        let k: usize = ids[i].idx();
        if k < flags.len() && flags[k] {
            out.push(ids[i]);
        }
        i += 1;
    }
    assert(ids@.take(i as int) =~= ids@);
    out
}

fn has_node(ids: &Vec<NodeId>, id: NodeId) -> (r: bool)
    ensures
        r == ids@.contains(id),
{
    let mut i: usize = 0;
    while i < ids.len()
        invariant
            i <= ids@.len(),
            forall|j: int| 0 <= j < i ==> ids@[j] != id,
        decreases ids@.len() - i,
    {
        if ids[i] == id {
            assert(ids@[i as int] == id);
            return true;
        }
        i += 1;
    }
    false
}

fn number_nodes(n: usize) -> (r: Vec<NodeId>)
    ensures
        r@ == all_ids(n as nat),
{
    let mut out: Vec<NodeId> = Vec::new();
    let mut i: usize = 0;
    while i < n
        invariant
            i <= n,
            out@ == all_ids(i as nat),
        decreases n - i,
    {
        out.push(NodeId(i as u32));
        i += 1;
        assert(out@ =~= all_ids(i as nat));
    }
    out
}

fn draw_node(rng: &mut Rng, ids: &Vec<NodeId>) -> (r: NodeId)
    requires
        ids@.len() > 0,
    ensures
        (r, *final(rng)) == pick_of(*old(rng), ids@),
{
    let i: u64 = rng.below(ids.len() as u64);
    ids[i as usize]
}

proof fn lemma_menu_total(menu: Seq<(u32, FaultChoice)>)
    ensures
        menu_total(menu) <= menu.len() * 0x1_0000_0000,
    decreases menu.len(),
{
    if menu.len() > 0 {
        lemma_menu_total(menu.drop_last());
    }
}

fn weighted_pick(rng: &mut Rng, menu: &Vec<(u32, FaultChoice)>) -> (r: Option<FaultChoice>)
    requires
        menu@.len() <= 16,
    ensures
        (r, *final(rng)) == weighted(*old(rng), menu@),
{
    let mut total: u64 = 0;
    let mut i: usize = 0;
    while i < menu.len()
        invariant
            i <= menu@.len(),
            menu@.len() <= 16,
            total == menu_total(menu@.take(i as int)),
        decreases menu@.len() - i,
    {
        proof {
            let t = menu@.take(i + 1);
            assert(t.drop_last() =~= menu@.take(i as int));
            assert(t.last() == menu@[i as int]);
            lemma_menu_total(menu@.take(i as int));
        }
        total = total + menu[i].0 as u64;
        i += 1;
    }
    assert(menu@.take(i as int) =~= menu@);
    if total == 0 {
        return None;
    }
    let mut pick: u64 = rng.below(total);
    let ghost first = pick as int;
    let mut k: usize = 0;
    while k < menu.len()
        invariant
            k <= menu@.len(),
            total > 0,
            total == menu_total(menu@),
            (first as u64, *rng) == old(rng).below_of(total),
            0 <= first <= u64::MAX,
            menu_entry(menu@, 0, first) == menu_entry(menu@, k as int, pick as int),
        decreases menu@.len() - k,
    {
        let w: u64 = menu[k].0 as u64;
        if pick < w {
            return Some(menu[k].1);
        }
        pick = pick - w;
        k += 1;
    }
    None
}

// ---- what the policy promises --------------------------------------------

proof fn lemma_menu_entry(menu: Seq<(u32, FaultChoice)>, i: int, pick: int)
    requires
        0 <= i,
    ensures
        menu_entry(menu, i, pick) is Some ==> exists|k: int|
            i <= k < menu.len() && (#[trigger] menu[k]).1 == menu_entry(menu, i, pick)->Some_0,
    decreases menu.len() - i,
{
    if i < menu.len() {
        if pick < menu[i].0 {
            assert(menu[i].1 == menu_entry(menu, i, pick)->Some_0);
        } else {
            lemma_menu_entry(menu, i + 1, pick - menu[i].0);
        }
    }
}

proof fn lemma_weighted_member(rng: Rng, menu: Seq<(u32, FaultChoice)>)
    ensures
        weighted(rng, menu).0 is Some ==> exists|k: int|
            0 <= k < menu.len() && (#[trigger] menu[k]).1 == weighted(rng, menu).0->Some_0,
{
    let (pick, r) = rng.below_of(menu_total(menu) as u64);
    lemma_menu_entry(menu, 0, pick as int);
}

/// A fault is on the menu only where it is legal: a crash only while fewer
/// nodes are down than may be and someone is alive, a restart only while
/// someone is down, and the others only where there are two nodes to act on.
pub proof fn law_menu_offers(inj: FaultInjector, up: Seq<bool>, choice: FaultChoice)
    ensures
        inj.menu(up).len() <= 7,
        (exists|k: int| 0 <= k < inj.menu(up).len() && (#[trigger] inj.menu(up)[k]).1 == choice)
            ==> {
            &&& choice is Crash ==> nodes_with(up, false, up.len() as int).len() < inj.down_limit(
                up.len(),
            ) && nodes_with(up, true, up.len() as int).len() > 0
            &&& choice is Restart ==> nodes_with(up, false, up.len() as int).len() > 0
            &&& choice is Partition || choice is Isolate || choice is SlowLink ==> up.len() >= 2
        },
{
    let menu = inj.menu(up);
    if exists|k: int| 0 <= k < menu.len() && (#[trigger] menu[k]).1 == choice {
        let k = choose|k: int| 0 <= k < menu.len() && (#[trigger] menu[k]).1 == choice;
        assert(menu[k].1 == choice);
    }
}

proof fn lemma_nodes_with(flags: Seq<bool>, want: bool, n: int)
    requires
        0 <= n <= flags.len() <= u32::MAX,
    ensures
        forall|i: int|
            0 <= i < nodes_with(flags, want, n).len() ==> (#[trigger] nodes_with(
                flags,
                want,
                n,
            )[i]).0 < n && flags[nodes_with(flags, want, n)[i].0 as int] == want,
    decreases n,
{
    if n > 0 {
        lemma_nodes_with(flags, want, n - 1);
        let (a, b) = (nodes_with(flags, want, n - 1), nodes_with(flags, want, n));
        assert forall|i: int| 0 <= i < b.len() implies (#[trigger] b[i]).0 < n
            && flags[b[i].0 as int] == want by {
            if i < a.len() {
                assert(b[i] == a[i]);
            }
        }
    }
}

proof fn lemma_flagged(ids: Seq<NodeId>, flags: Seq<bool>)
    ensures
        forall|i: int|
            0 <= i < flagged(ids, flags).len() ==> ids.contains(#[trigger] flagged(ids, flags)[i]),
    decreases ids.len(),
{
    if ids.len() > 0 {
        lemma_flagged(ids.drop_last(), flags);
        let (a, b) = (flagged(ids.drop_last(), flags), flagged(ids, flags));
        assert forall|i: int| 0 <= i < b.len() implies ids.contains(#[trigger] b[i]) by {
            if i < a.len() {
                assert(b[i] == a[i]);
                let j = choose|j: int|
                    0 <= j < ids.drop_last().len() && ids.drop_last()[j] == a[i];
                assert(ids[j] == b[i]);
            } else {
                assert(ids[ids.len() - 1] == b[i]);
            }
        }
    }
}

/// A crash hits a node that is up, and only while the number of nodes down
/// stays, with it, within the limit; a restart hits a node that is down.
pub proof fn law_crashes_respect_the_limit(
    inj: FaultInjector,
    rng: Rng,
    now: Nanos,
    up: Seq<bool>,
    leader: Option<NodeId>,
    unsynced: Seq<bool>,
)
    requires
        up.len() <= u32::MAX,
    ensures
        ({
            let d = inj.decision(rng, now, up, leader, unsynced);
            let down = nodes_with(up, false, up.len() as int).len();
            &&& d.action matches Some(FaultView::Crash(t)) ==> t.0 < up.len() && up[t.0 as int]
                && down + 1 <= inj.down_limit(up.len())
            &&& d.action matches Some(FaultView::Restart(t)) ==> t.0 < up.len() && !up[t.0 as int]
        }),
{
    let d = inj.decision(rng, now, up, leader, unsynced);
    let (choice, r) = weighted(rng, inj.menu(up));
    let alive = nodes_with(up, true, up.len() as int);
    let down = nodes_with(up, false, up.len() as int);
    lemma_nodes_with(up, true, up.len() as int);
    lemma_nodes_with(up, false, up.len() as int);
    lemma_weighted_member(rng, inj.menu(up));
    if choice is Some {
        law_menu_offers(inj, up, choice->Some_0);
    }
    if let Some(FaultView::Crash(t)) = d.action {
        assert(choice == Some(FaultChoice::Crash));
        let dirty = flagged(alive, unsynced);
        lemma_flagged(alive, unsynced);
        assert forall|g: Rng, ids: Seq<NodeId>| ids.len() > 0 && ids.len() <= u64::MAX implies (
        #[trigger] pick_of(g, ids)).0 == ids[g.below_of(ids.len() as u64).0 as int] && g.below_of(
            ids.len() as u64,
        ).0 < ids.len() by {
            law_below_in_range(g, ids.len() as u64);
        }
        lemma_length(up, true, up.len() as int);
        lemma_flagged_len(alive, unsynced);
        assert(alive.contains(t)) by {
            if !(leader == Some(t) && alive.contains(t)) {
                if dirty.contains(t) {
                    let i = choose|i: int| 0 <= i < dirty.len() && dirty[i] == t;
                    assert(alive.contains(dirty[i]));
                }
            }
        }
        let i = choose|i: int| 0 <= i < alive.len() && alive[i] == t;
        assert(up[alive[i].0 as int]);
    }
    if let Some(FaultView::Restart(t)) = d.action {
        assert(choice == Some(FaultChoice::Restart));
        lemma_length(up, false, up.len() as int);
        law_below_in_range(r, down.len() as u64);
        let i = r.below_of(down.len() as u64).0 as int;
        assert(!up[down[i].0 as int]);
    }
}

proof fn lemma_length(flags: Seq<bool>, want: bool, n: int)
    requires
        0 <= n,
    ensures
        nodes_with(flags, want, n).len() <= n,
    decreases n,
{
    if n > 0 {
        lemma_length(flags, want, n - 1);
    }
}

proof fn lemma_flagged_len(ids: Seq<NodeId>, flags: Seq<bool>)
    ensures
        flagged(ids, flags).len() <= ids.len(),
    decreases ids.len(),
{
    if ids.len() > 0 {
        lemma_flagged_len(ids.drop_last(), flags);
    }
}

/// Without leave to lose the quorum, the limit is a minority; with it, one node
/// always stays up.
pub proof fn law_down_limit(inj: FaultInjector, n: nat)
    requires
        n > 0,
    ensures
        !inj.cfg.allow_quorum_loss ==> 2 * inj.down_limit(n) < n,
        inj.down_limit(n) < n,
{
}

/// Faults keep to their window: before it nothing happens, and after it the
/// cluster is told to recover exactly once.
pub proof fn law_faults_respect_the_window(
    inj: FaultInjector,
    rng: Rng,
    now: Nanos,
    up: Seq<bool>,
    leader: Option<NodeId>,
    unsynced: Seq<bool>,
)
    ensures
        ({
            let d = inj.decision(rng, now, up, leader, unsynced);
            &&& now < inj.cfg.window.0 && now < inj.cfg.window.1 ==> d.action is None
                && d.injector == inj
            &&& now >= inj.cfg.window.1 ==> d.injector.recovered && d.rng == rng && (d.action
                == if inj.recovered {
                None
            } else {
                Some(FaultView::Recover)
            })
            &&& now < inj.cfg.window.1 ==> d.action != Some(FaultView::Recover)
                && d.injector.recovered == inj.recovered
            &&& !inj.cfg.some_enabled() && now < inj.cfg.window.1 ==> d.action is None
            &&& d.injector.cfg == inj.cfg
        }),
{
}

/// A partition splits the nodes into two groups, neither empty, in which every
/// node occurs exactly once.
pub proof fn law_partitions_are_a_proper_split(inj: FaultInjector, rng: Rng, n: nat)
    requires
        2 <= n <= u32::MAX,
    ensures
        ({
            let d = inj.split(rng, n);
            &&& d.action matches Some(FaultView::Partition(groups)) && groups.len() == 2
                && groups[0].len() > 0 && groups[1].len() > 0 && (groups[0]
                + groups[1]).to_multiset() == all_ids(n).to_multiset()
        }),
{
    let (ids, r) = rng.shuffled(all_ids(n), n - 1);
    law_shuffle_permutes(rng, all_ids(n));
    law_below_in_range(r, (n - 1) as u64);
    let cut = 1 + r.below_of((n - 1) as u64).0;
    assert(ids.subrange(0, cut) + ids.subrange(cut, n as int) =~= ids);
}

} // verus!
