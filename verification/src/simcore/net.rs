//! The network model: latency, loss, duplication, reordering, partitions.
//!
//! Links are directed. A partition that blocks A->B but leaves B->A open is
//! not an exotic case -- asymmetric reachability is common in practice and it
//! breaks consensus implementations that assume "I can hear you" implies "you
//! can hear me".
//!
//! Reordering is not simulated with a special flag: every message draws its own
//! latency, so overtaking happens naturally, at a rate that depends on the
//! spread of the latency distribution.

use crate::bytes::copy_range;
use crate::count::{bump, count_up, mul_capped, times};
use crate::simcore::faults::group_views;
use crate::simcore::rng::{law_below_in_range, Rng};
use crate::simcore::scheduler::{Event, EventView, SchedView, Scheduler};
use crate::simcore::{Nanos, NodeId};
use std::collections::BTreeSet;
use vstd::prelude::*;

verus! {

/// How the network behaves.
#[derive(Clone, Copy, Debug, PartialEq, Eq)]
pub struct NetConfig {
    pub latency: (Nanos, Nanos),
    pub drop_ppm: u32,
    pub duplicate_ppm: u32,
    /// Probability a delivered message arrives with a flipped byte. The
    /// receiver is expected to reject it, not to panic.
    pub corrupt_ppm: u32,
    pub slow_ppm: u32,
    pub slow_factor: u64,
}

impl Default for NetConfig {
    fn default() -> (r: NetConfig)
        ensures
            r == NetConfig::standard(),
    {
        NetConfig {
            latency: (200_000, 3_000_000),
            drop_ppm: 0,
            duplicate_ppm: 0,
            corrupt_ppm: 0,
            slow_ppm: 0,
            slow_factor: 30,
        }
    }
}

impl NetConfig {
    /// A network that only takes its time.
    pub open spec fn standard() -> NetConfig {
        NetConfig {
            latency: (200_000, 3_000_000),
            drop_ppm: 0,
            duplicate_ppm: 0,
            corrupt_ppm: 0,
            slow_ppm: 0,
            slow_factor: 30,
        }
    }

    pub fn reliable() -> (r: NetConfig)
        ensures
            r == NetConfig::standard(),
    {
        NetConfig::default()
    }

    /// A network that loses, repeats, damages and delays messages.
    pub open spec fn harsh() -> NetConfig {
        NetConfig {
            drop_ppm: 50_000,
            duplicate_ppm: 20_000,
            corrupt_ppm: 1_000,
            slow_ppm: 20_000,
            ..NetConfig::standard()
        }
    }

    pub fn hostile() -> (r: NetConfig)
        ensures
            r == NetConfig::harsh(),
    {
        let mut cfg = NetConfig::default();
        cfg.drop_ppm = 50_000;
        cfg.duplicate_ppm = 20_000;
        cfg.corrupt_ppm = 1_000;
        cfg.slow_ppm = 20_000;
        cfg
    }
}

/// What became of the messages.
#[derive(Clone, Copy, Debug, PartialEq, Eq)]
pub struct NetStats {
    pub sent: u64,
    pub dropped_loss: u64,
    pub dropped_partition: u64,
    pub duplicated: u64,
    pub corrupted: u64,
    pub delivered: u64,
}

impl NetStats {
    /// Nothing has been sent yet.
    pub open spec fn zero() -> NetStats {
        NetStats {
            sent: 0,
            dropped_loss: 0,
            dropped_partition: 0,
            duplicated: 0,
            corrupted: 0,
            delivered: 0,
        }
    }
}

impl Default for NetStats {
    fn default() -> (r: NetStats)
        ensures
            r == NetStats::zero(),
    {
        NetStats {
            sent: 0,
            dropped_loss: 0,
            dropped_partition: 0,
            duplicated: 0,
            corrupted: 0,
            delivered: 0,
        }
    }
}

/// The links between nodes.
#[derive(Debug)]
pub struct Network {
    cfg: NetConfig,
    nodes: usize,
    /// Directed links that are currently cut.
    blocked: BTreeSet<(u32, u32)>,
    /// Directed links that are up but degraded.
    slow: BTreeSet<(u32, u32)>,
    next_msg: u64,
    stats: NetStats,
}

/// The links between nodes, as a mathematical value.
#[verifier::ext_equal]
pub struct NetView {
    pub cfg: NetConfig,
    pub nodes: usize,
    pub blocked: Set<(u32, u32)>,
    pub slow: Set<(u32, u32)>,
    pub next_msg: u64,
    pub stats: NetStats,
}

impl View for Network {
    type V = NetView;

    closed spec fn view(&self) -> NetView {
        NetView {
            cfg: self.cfg,
            nodes: self.nodes,
            blocked: self.blocked@,
            slow: self.slow@,
            next_msg: self.next_msg,
            stats: self.stats,
        }
    }
}

/// The group a node is in: the last one that lists it.
pub open spec fn group_of(groups: Seq<Seq<NodeId>>, node: u32) -> Option<int>
    decreases groups.len(),
{
    if groups.len() == 0 {
        None
    } else if groups.last().contains(NodeId(node)) {
        Some(groups.len() - 1)
    } else {
        group_of(groups.drop_last(), node)
    }
}

/// Whether two nodes are in different groups.
pub open spec fn apart(groups: Seq<Seq<NodeId>>, a: u32, b: u32) -> bool {
    group_of(groups, a) is Some && group_of(groups, b) is Some && group_of(groups, a) != group_of(
        groups,
        b,
    )
}

/// The outcome of sending: the network, the generator and the scheduler after
/// it.
pub struct Sent {
    pub net: NetView,
    pub rng: Rng,
    pub sched: SchedView,
    /// How many copies will be delivered.
    pub copies: int,
}

/// A payload with one bit flipped.
pub open spec fn flipped(payload: Seq<u8>, i: int, bit: u64) -> Seq<u8> {
    payload.update(i, payload[i] ^ (1u8 << (bit as u8)))
}

/// What arrives of a payload: it may have a bit flipped on the way.
pub open spec fn carried(cfg: NetConfig, rng: Rng, payload: Seq<u8>) -> (Seq<u8>, bool, Rng) {
    let (hit, r) = rng.chance_of(cfg.corrupt_ppm);
    if hit && payload.len() > 0 {
        let (i, q) = r.below_of(payload.len() as u64);
        let (bit, z) = q.below_of(8);
        (flipped(payload, i as int, bit), true, z)
    } else {
        (payload, false, r)
    }
}

impl NetView {
    /// A network with every link up.
    pub open spec fn blank(nodes: usize, cfg: NetConfig) -> NetView {
        NetView {
            cfg,
            nodes,
            blocked: Set::empty(),
            slow: Set::empty(),
            next_msg: 1,
            stats: NetStats::zero(),
        }
    }

    /// Whether a link is cut.
    pub open spec fn is_blocked(self, from: NodeId, to: NodeId) -> bool {
        self.blocked.contains((from.0, to.0))
    }

    /// Every link of a node cut, both ways.
    pub open spec fn isolate(self, node: NodeId) -> NetView {
        NetView {
            blocked: Set::new(
                |l: (u32, u32)|
                    self.blocked.contains(l) || (l.0 != l.1 && ((l.0 == node.0 && l.1 < self.nodes)
                        || (l.1 == node.0 && l.0 < self.nodes))),
            ),
            ..self
        }
    }

    /// Every link between different groups cut.
    pub open spec fn partition(self, groups: Seq<Seq<NodeId>>) -> NetView {
        NetView {
            blocked: Set::new(
                |l: (u32, u32)|
                    self.blocked.contains(l) || (l.0 < self.nodes && l.1 < self.nodes && apart(
                        groups,
                        l.0,
                        l.1,
                    )),
            ),
            ..self
        }
    }

    /// One copy of a message put on its way.
    pub open spec fn dispatch(
        self,
        rng: Rng,
        sched: SchedView,
        from: NodeId,
        to: NodeId,
        payload: Seq<u8>,
    ) -> Sent {
        let msg = self.next_msg;
        let (base, r) = rng.skewed_of(self.cfg.latency.0, self.cfg.latency.1);
        let (late, q) = if self.slow.contains((from.0, to.0)) {
            (true, r)
        } else {
            r.chance_of(self.cfg.slow_ppm)
        };
        let delay = if late {
            times(base, self.cfg.slow_factor)
        } else {
            base
        };
        let (bytes, hit, z) = carried(self.cfg, q, payload);
        Sent {
            net: NetView {
                next_msg: bump(msg),
                stats: NetStats {
                    corrupted: if hit {
                        bump(self.stats.corrupted)
                    } else {
                        self.stats.corrupted
                    },
                    ..self.stats
                },
                ..self
            },
            rng: z,
            sched: sched.after(delay, EventView::Deliver { from, to, payload: bytes, msg }),
            copies: 1,
        }
    }

    /// A message sent.
    pub open spec fn send(
        self,
        rng: Rng,
        sched: SchedView,
        from: NodeId,
        to: NodeId,
        payload: Seq<u8>,
    ) -> Sent {
        let stats = NetStats { sent: bump(self.stats.sent), ..self.stats };
        if self.is_blocked(from, to) {
            Sent {
                net: NetView {
                    stats: NetStats {
                        dropped_partition: bump(stats.dropped_partition),
                        ..stats
                    },
                    ..self
                },
                rng,
                sched,
                copies: 0,
            }
        } else {
            let (lost, r) = rng.chance_of(self.cfg.drop_ppm);
            if lost {
                Sent {
                    net: NetView {
                        stats: NetStats { dropped_loss: bump(stats.dropped_loss), ..stats },
                        ..self
                    },
                    rng: r,
                    sched,
                    copies: 0,
                }
            } else {
                let (twice, q) = r.chance_of(self.cfg.duplicate_ppm);
                if twice {
                    let net = NetView {
                        stats: NetStats { duplicated: bump(stats.duplicated), ..stats },
                        ..self
                    };
                    let one = net.dispatch(q, sched, from, to, payload);
                    let two = one.net.dispatch(one.rng, one.sched, from, to, payload);
                    Sent { copies: 2, ..two }
                } else {
                    NetView { stats, ..self }.dispatch(q, sched, from, to, payload)
                }
            }
        }
    }

    /// The network once an arriving message has been judged.
    pub open spec fn accept(self, from: NodeId, to: NodeId) -> (NetView, bool) {
        if self.is_blocked(from, to) {
            (
                NetView {
                    stats: NetStats {
                        dropped_partition: bump(self.stats.dropped_partition),
                        ..self.stats
                    },
                    ..self
                },
                false,
            )
        } else {
            (
                NetView {
                    stats: NetStats { delivered: bump(self.stats.delivered), ..self.stats },
                    ..self
                },
                true,
            )
        }
    }
}

fn find_group(groups: &[Vec<NodeId>], node: u32) -> (r: Option<usize>)
    ensures
        match r {
            Some(g) => group_of(group_views(groups@), node) == Some(g as int),
            None => group_of(group_views(groups@), node) is None,
        },
{
    let ghost v = group_views(groups@);
    let mut k: usize = groups.len();
    assert(v.take(k as int) =~= v);
    while k > 0
        invariant
            k <= groups@.len(),
            v == group_views(groups@),
            group_of(v, node) == group_of(v.take(k as int), node),
        decreases k,
    {
        let g = &groups[k - 1];
        let ghost t = v.take(k as int);
        assert(t.last() == g@);
        assert(t.drop_last() =~= v.take(k - 1));
        let mut i: usize = 0;
        while i < g.len()
            invariant
                i <= g@.len(),
                forall|j: int| 0 <= j < i ==> g@[j] != NodeId(node),
                t.last() == g@,
                0 < k <= groups@.len(),
                t.len() == k,
                group_of(v, node) == group_of(t, node),
                v == group_views(groups@),
            decreases g@.len() - i,
        {
            if g[i].0 == node {
                assert(g@[i as int] == NodeId(node));
                return Some(k - 1);
            }
            i += 1;
        }
        k -= 1;
    }
    None
}

impl Network {
    pub fn new(nodes: usize, cfg: NetConfig) -> (r: Network)
        ensures
            r@ == NetView::blank(nodes, cfg),
    {
        Network {
            cfg,
            nodes,
            blocked: BTreeSet::new(),
            slow: BTreeSet::new(),
            next_msg: 1,
            stats: NetStats::default(),
        }
    }

    pub fn config(&self) -> (r: &NetConfig)
        ensures
            *r == self@.cfg,
    {
        &self.cfg
    }

    pub fn stats(&self) -> (r: NetStats)
        ensures
            r == self@.stats,
    {
        self.stats
    }

    pub fn nodes(&self) -> (r: usize)
        ensures
            r == self@.nodes,
    {
        self.nodes
    }

    pub fn is_blocked(&self, from: NodeId, to: NodeId) -> (r: bool)
        ensures
            r == self@.is_blocked(from, to),
    {
        self.blocked.contains(&(from.0, to.0))
    }

    /// Cut one direction only.
    pub fn cut(&mut self, from: NodeId, to: NodeId)
        ensures
            final(self)@ == (NetView {
                blocked: old(self)@.blocked.insert((from.0, to.0)),
                ..old(self)@
            }),
    {
        self.blocked.insert((from.0, to.0));
    }

    pub fn heal(&mut self, from: NodeId, to: NodeId)
        ensures
            final(self)@ == (NetView {
                blocked: old(self)@.blocked.remove((from.0, to.0)),
                ..old(self)@
            }),
    {
        self.blocked.remove(&(from.0, to.0));
    }

    pub fn heal_all(&mut self)
        ensures
            final(self)@ == (NetView {
                blocked: Set::empty(),
                slow: Set::empty(),
                ..old(self)@
            }),
    {
        self.blocked.clear();
        self.slow.clear();
    }

    pub fn slow_link(&mut self, from: NodeId, to: NodeId)
        ensures
            final(self)@ == (NetView {
                slow: old(self)@.slow.insert((from.0, to.0)),
                ..old(self)@
            }),
    {
        self.slow.insert((from.0, to.0));
    }

    /// Cut every link in both directions between `node` and the rest.
    pub fn isolate(&mut self, node: NodeId)
        ensures
            final(self)@ == old(self)@.isolate(node),
    {
        let end: u64 = self.node_end();
        let mut other: u64 = 0;
        while other < end
            invariant
                other <= end,
                end <= 0x1_0000_0000,
                self.cfg == old(self).cfg,
                self.nodes == old(self).nodes,
                self.slow == old(self).slow,
                self.next_msg == old(self).next_msg,
                self.stats == old(self).stats,
                forall|l: (u32, u32)| #[trigger]
                    self.blocked@.contains(l) <==> old(self).blocked@.contains(l) || (l.0 != l.1 && (
                    (l.0 == node.0 && l.1 < other) || (l.1 == node.0 && l.0 < other))),
            decreases end - other,
        {
            let o: u32 = other as u32;
            if o != node.0 {
                self.blocked.insert((node.0, o));
                self.blocked.insert((o, node.0));
            }
            other += 1;
        }
        proof {
            assert forall|l: (u32, u32)| #[trigger] self.blocked@.contains(l) <==> old(
                self,
            )@.isolate(node).blocked.contains(l) by {}
            assert(self@ =~= old(self)@.isolate(node));
        }
    }

    /// One past the largest node number there can be.
    fn node_end(&self) -> (r: u64)
        ensures
            r == if self@.nodes > 0x1_0000_0000 {
                0x1_0000_0000int
            } else {
                self@.nodes as int
            },
    {
        if self.nodes as u64 > 0x1_0000_0000 {
            0x1_0000_0000
        } else {
            self.nodes as u64
        }
    }

    /// Split the cluster into disjoint groups that cannot talk across the
    /// boundary. Nodes not listed in any group keep talking to everyone.
    pub fn partition(&mut self, groups: &[Vec<NodeId>])
        ensures
            final(self)@ == old(self)@.partition(group_views(groups@)),
    {
        let ghost v = group_views(groups@);
        let end: u64 = self.node_end();
        let mut a: u64 = 0;
        while a < end
            invariant
                a <= end,
                end <= 0x1_0000_0000,
                v == group_views(groups@),
                self.cfg == old(self).cfg,
                self.nodes == old(self).nodes,
                self.slow == old(self).slow,
                self.next_msg == old(self).next_msg,
                self.stats == old(self).stats,
                forall|l: (u32, u32)| #[trigger]
                    self.blocked@.contains(l) <==> old(self).blocked@.contains(l) || (l.0 < a && l.1
                        < end && apart(v, l.0, l.1)),
            decreases end - a,
        {
            let ga = find_group(groups, a as u32);
            let mut b: u64 = 0;
            while b < end
                invariant
                    a < end,
                    b <= end,
                    end <= 0x1_0000_0000,
                    v == group_views(groups@),
                    match ga {
                        Some(g) => group_of(v, a as u32) == Some(g as int),
                        None => group_of(v, a as u32) is None,
                    },
                    self.cfg == old(self).cfg,
                    self.nodes == old(self).nodes,
                    self.slow == old(self).slow,
                    self.next_msg == old(self).next_msg,
                    self.stats == old(self).stats,
                    forall|l: (u32, u32)| #[trigger]
                        self.blocked@.contains(l) <==> old(self).blocked@.contains(l) || (l.0 < a
                            && l.1 < end && apart(v, l.0, l.1)) || (l.0 == a && l.1 < b && apart(
                            v,
                            l.0,
                            l.1,
                        )),
                decreases end - b,
            {
                if let Some(x) = ga {
                    if let Some(y) = find_group(groups, b as u32) {
                        if x != y {
                            self.blocked.insert((a as u32, b as u32));
                        }
                    }
                }
                b += 1;
            }
            a += 1;
        }
        proof {
            assert forall|l: (u32, u32)| #[trigger] self.blocked@.contains(l) <==> old(
                self,
            )@.partition(v).blocked.contains(l) by {}
            assert(self@ =~= old(self)@.partition(v));
        }
    }

    pub fn blocked_links(&self) -> (r: usize)
        ensures
            r == self@.blocked.len(),
    {
        self.blocked.len()
    }

    fn put_on_the_wire(
        &mut self,
        rng: &mut Rng,
        sched: &mut Scheduler,
        from: NodeId,
        to: NodeId,
        payload: &[u8],
    )
        ensures
            (Sent { net: final(self)@, rng: *final(rng), sched: final(sched)@, copies: 1 }) == old(
                self,
            )@.dispatch(*old(rng), old(sched)@, from, to, payload@),
    {
        let msg: u64 = self.next_msg;
        self.next_msg = count_up(msg);
        let mut delay: u64 = rng.skewed(self.cfg.latency.0, self.cfg.latency.1);
        if self.slow.contains(&(from.0, to.0)) || rng.chance_ppm(self.cfg.slow_ppm) {
            delay = mul_capped(delay, self.cfg.slow_factor);
        }
        let mut bytes = copy_range(payload, 0, payload.len());
        assert(bytes@ =~= payload@);
        if rng.chance_ppm(self.cfg.corrupt_ppm) && bytes.len() > 0 {
            self.stats.corrupted = count_up(self.stats.corrupted);
            let i: usize = rng.below(bytes.len() as u64) as usize;
            let bit: u8 = rng.below(8) as u8;
            bytes[i] = bytes[i] ^ (1u8 << bit);
        }
        sched.after(delay, Event::Deliver { from, to, payload: bytes, msg });
    }

    /// Send `payload` from `from` to `to`, scheduling delivery events.
    ///
    /// Returns the number of copies that will be delivered (0 if dropped).
    pub fn send(
        &mut self,
        rng: &mut Rng,
        sched: &mut Scheduler,
        from: NodeId,
        to: NodeId,
        payload: &[u8],
    ) -> (r: usize)
        ensures
            (Sent { net: final(self)@, rng: *final(rng), sched: final(sched)@, copies: r as int })
                == old(self)@.send(*old(rng), old(sched)@, from, to, payload@),
    {
        self.stats.sent = count_up(self.stats.sent);
        if self.is_blocked(from, to) {
            self.stats.dropped_partition = count_up(self.stats.dropped_partition);
            return 0;
        }
        if rng.chance_ppm(self.cfg.drop_ppm) {
            self.stats.dropped_loss = count_up(self.stats.dropped_loss);
            return 0;
        }
        // A duplicate is a second, independently delayed copy -- so the
        // duplicate may well arrive before the original.
        if rng.chance_ppm(self.cfg.duplicate_ppm) {
            self.stats.duplicated = count_up(self.stats.duplicated);
            self.put_on_the_wire(rng, sched, from, to, payload);
            self.put_on_the_wire(rng, sched, from, to, payload);
            2
        } else {
            self.put_on_the_wire(rng, sched, from, to, payload);
            1
        }
    }

    /// Called at delivery time. A partition that appears while a message is in
    /// flight still eats it, which is what real networks do.
    pub fn accept_delivery(&mut self, from: NodeId, to: NodeId) -> (r: bool)
        ensures
            (final(self)@, r) == old(self)@.accept(from, to),
    {
        if self.is_blocked(from, to) {
            self.stats.dropped_partition = count_up(self.stats.dropped_partition);
            false
        } else {
            self.stats.delivered = count_up(self.stats.delivered);
            true
        }
    }

    pub fn latency_bounds(&self) -> (r: (Nanos, Nanos))
        ensures
            r == self@.cfg.latency,
    {
        self.cfg.latency
    }
}

// ---- what the model promises ---------------------------------------------

/// Cutting one direction leaves the other as it was; healing undoes a cut.
pub proof fn law_links_are_directed(net: NetView, a: NodeId, b: NodeId)
    requires
        a != b,
    ensures
        ({
            let cut = NetView { blocked: net.blocked.insert((a.0, b.0)), ..net };
            let healed = NetView { blocked: cut.blocked.remove((a.0, b.0)), ..cut };
            &&& cut.is_blocked(a, b)
            &&& cut.is_blocked(b, a) == net.is_blocked(b, a)
            &&& !healed.is_blocked(a, b)
        }),
{
}

/// A partition blocks exactly the links that were blocked before and those
/// between nodes of different groups; it blocks both directions.
pub proof fn law_partition_splits_groups(
    net: NetView,
    groups: Seq<Seq<NodeId>>,
    a: NodeId,
    b: NodeId,
)
    ensures
        net.partition(groups).is_blocked(a, b) <==> net.is_blocked(a, b) || (a.0 < net.nodes && b.0
            < net.nodes && apart(groups, a.0, b.0)),
        apart(groups, a.0, b.0) == apart(groups, b.0, a.0),
        !apart(groups, a.0, a.0),
{
    assert(net.partition(groups).blocked.contains((a.0, b.0)) <==> net.blocked.contains((a.0, b.0))
        || (a.0 < net.nodes && b.0 < net.nodes && apart(groups, a.0, b.0)));
}

/// A blocked link carries nothing: nothing is scheduled and no number drawn.
pub proof fn law_blocked_links_carry_nothing(
    net: NetView,
    rng: Rng,
    sched: SchedView,
    from: NodeId,
    to: NodeId,
    payload: Seq<u8>,
)
    requires
        net.is_blocked(from, to),
    ensures
        net.send(rng, sched, from, to, payload).copies == 0,
        net.send(rng, sched, from, to, payload).sched == sched,
        net.send(rng, sched, from, to, payload).rng == rng,
        !net.accept(from, to).1,
{
}

/// On its way a payload changes in at most one bit, and only where corruption
/// struck; it keeps its length.
pub proof fn law_corruption_is_one_bit(cfg: NetConfig, rng: Rng, payload: Seq<u8>)
    requires
        payload.len() <= u64::MAX,
    ensures
        ({
            let (bytes, hit, r) = carried(cfg, rng, payload);
            &&& bytes.len() == payload.len()
            &&& !hit ==> bytes == payload
            &&& hit ==> bytes != payload && exists|i: int, bit: u64|
                0 <= i < payload.len() && bit < 8 && bytes == #[trigger] flipped(payload, i, bit)
        }),
{
    let (hit, r) = rng.chance_of(cfg.corrupt_ppm);
    if hit && payload.len() > 0 {
        let (i, q) = r.below_of(payload.len() as u64);
        let (bit, z) = q.below_of(8);
        law_below_in_range(r, payload.len() as u64);
        law_below_in_range(q, 8);
        let (x, b) = (payload[i as int], bit as u8);
        assert(b < 8 ==> x ^ (1u8 << b) != x) by (bit_vector);
        let bytes = carried(cfg, rng, payload).0;
        assert(bytes == flipped(payload, i as int, bit));
        assert(bytes[i as int] != payload[i as int]);
    }
}

} // verus!
