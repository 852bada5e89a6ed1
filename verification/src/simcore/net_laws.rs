//! What becomes of a message, and of the links it takes.

use crate::count::{bump, times};
use crate::simcore::net::{apart, carried, group_of, law_corruption_is_one_bit, NetStats, NetView};
use crate::simcore::rng::{law_range_in_bounds, Rng};
use crate::simcore::scheduler::{EventView, FiredView, SchedView};
use crate::simcore::world::WorldView;
use crate::simcore::world_laws::law_scheduling_adds_one_event;
use crate::simcore::{Nanos, NodeId};
use vstd::prelude::*;

verus! {

/// A copy that is put on its way arrives once, at the node it is meant for, from
/// the node that sent it, with a number of its own. It takes as long as the
/// network takes, longer by the factor on a slow link; and it is as it was sent
/// where nothing is ever corrupted.
pub proof fn law_a_copy_is_on_its_way(
    net: NetView,
    rng: Rng,
    sched: SchedView,
    from: NodeId,
    to: NodeId,
    payload: Seq<u8>,
)
    requires
        payload.len() <= u64::MAX,
        net.cfg.latency.0 <= net.cfg.latency.1,
        sched.now + times(net.cfg.latency.1, net.cfg.slow_factor) <= u64::MAX,
        sched.now + net.cfg.latency.1 <= u64::MAX,
        net.cfg.latency.1 * net.cfg.slow_factor <= u64::MAX,
    ensures
        ({
            let s = net.dispatch(rng, sched, from, to, payload);
            let (least, most) = net.cfg.latency;
            &&& s.copies == 1
            &&& s.sched.queue.len() == sched.queue.len() + 1
            &&& forall|f: FiredView| sched.queue.contains(f) ==> #[trigger] s.sched.queue.contains(f)
            &&& net.next_msg < u64::MAX ==> s.net.next_msg == net.next_msg + 1
            &&& s.net.blocked == net.blocked && s.net.slow == net.slow && s.net.cfg == net.cfg
            &&& exists|f: FiredView| #[trigger]
                s.sched.queue.contains(f) && f.id == sched.next_id && (match f.event {
                    EventView::Deliver { from: a, to: b, payload: bytes, msg } => {
                        &&& a == from && b == to && msg == net.next_msg
                        &&& bytes.len() == payload.len()
                        &&& net.cfg.corrupt_ppm == 0 ==> bytes == payload
                    },
                    _ => false,
                }) && (net.cfg.slow_ppm == 0 && !net.slow.contains((from.0, to.0)) ==> least <= f.time
                    - sched.now <= most) && (net.slow.contains((from.0, to.0)) ==> least
                    * net.cfg.slow_factor <= f.time - sched.now <= most * net.cfg.slow_factor)
        }),
{
    let (least, most) = net.cfg.latency;
    let (base, r) = rng.skewed_of(least, most);
    law_range_in_bounds(rng, least, most);
    let (late, q) = if net.slow.contains((from.0, to.0)) {
        (true, r)
    } else {
        r.chance_of(net.cfg.slow_ppm)
    };
    let factor = net.cfg.slow_factor;
    assert(least * factor <= base * factor <= most * factor) by (nonlinear_arith)
        requires
            least <= base <= most,
            factor >= 0,
    ;
    let delay = if late {
        times(base, factor)
    } else {
        base
    };
    let (bytes, hit, z) = carried(net.cfg, q, payload);
    law_corruption_is_one_bit(net.cfg, q, payload);
    let e = EventView::Deliver { from, to, payload: bytes, msg: net.next_msg };
    let time = (sched.now + delay) as u64;
    law_scheduling_adds_one_event(sched, time, e);
    let s = net.dispatch(rng, sched, from, to, payload);
    assert(s.sched == sched.at(time, e));
    let f = FiredView { time, id: sched.next_id, event: e };
    assert(s.sched.queue.contains(f));
    broadcast use vstd::seq_lib::group_to_multiset_ensures;

    assert forall|g: FiredView| sched.queue.contains(g) implies #[trigger] s.sched.queue.contains(
        g,
    ) by {
        assert(sched.queue.to_multiset().count(g) > 0);
        assert(s.sched.queue.to_multiset().count(g) > 0);
    }
}

/// Every message that is sent is counted, and so is what became of it: it was
/// cut off, lost, doubled or sent once, and as many copies are under way as
/// that says. A network that loses everything carries nothing; one that loses
/// nothing carries everything its links let through.
pub proof fn law_every_message_is_accounted_for(
    net: NetView,
    rng: Rng,
    sched: SchedView,
    from: NodeId,
    to: NodeId,
    payload: Seq<u8>,
)
    requires
        net.stats.sent < u64::MAX,
        net.stats.dropped_partition < u64::MAX,
        net.stats.dropped_loss < u64::MAX,
        net.stats.duplicated < u64::MAX,
    ensures
        ({
            let s = net.send(rng, sched, from, to, payload);
            let (a, b) = (net.stats, s.net.stats);
            let cut = b.dropped_partition - a.dropped_partition;
            let lost = b.dropped_loss - a.dropped_loss;
            let twice = b.duplicated - a.duplicated;
            &&& b.sent == a.sent + 1
            &&& b.delivered == a.delivered
            &&& 0 <= cut <= 1 && 0 <= lost <= 1 && 0 <= twice <= 1
            &&& cut + lost + twice <= 1
            &&& s.copies == 1 - cut - lost + twice
            &&& s.sched.queue.len() == sched.queue.len() + s.copies
            &&& s.net.blocked == net.blocked && s.net.slow == net.slow && s.net.cfg == net.cfg
            &&& cut == 1 <==> net.blocked.contains((from.0, to.0))
            &&& net.cfg.drop_ppm == 0 ==> lost == 0
            &&& net.cfg.drop_ppm >= 1_000_000 && cut == 0 ==> lost == 1
            &&& net.cfg.duplicate_ppm == 0 ==> twice == 0
            &&& net.cfg.duplicate_ppm >= 1_000_000 && cut + lost == 0 ==> twice == 1
        }),
{
    lemma_dispatch_adds(net, rng, sched, from, to, payload);
    let (lost, r) = rng.chance_of(net.cfg.drop_ppm);
    let (twice, q) = r.chance_of(net.cfg.duplicate_ppm);
    let stats = NetStats { sent: bump(net.stats.sent), ..net.stats };
    let plain = NetView { stats, ..net };
    lemma_dispatch_adds(plain, q, sched, from, to, payload);
    let doubled = NetView {
        stats: NetStats {
            duplicated: bump(stats.duplicated),
            ..stats
        },
        ..net
    };
    lemma_dispatch_adds(doubled, q, sched, from, to, payload);
    let one = doubled.dispatch(q, sched, from, to, payload);
    lemma_dispatch_adds(one.net, one.rng, one.sched, from, to, payload);
}

proof fn lemma_dispatch_adds(
    net: NetView,
    rng: Rng,
    sched: SchedView,
    from: NodeId,
    to: NodeId,
    payload: Seq<u8>,
)
    ensures
        ({
            let s = net.dispatch(rng, sched, from, to, payload);
            let (a, b) = (net.stats, s.net.stats);
            &&& s.sched.queue.len() == sched.queue.len() + 1
            &&& b.sent == a.sent && b.dropped_partition == a.dropped_partition && b.dropped_loss
                == a.dropped_loss && b.duplicated == a.duplicated && b.delivered == a.delivered
        }),
{
    assert forall|time: Nanos, e: EventView| (#[trigger] sched.at(time, e)).queue.len()
        == sched.queue.len() + 1 by {
        law_scheduling_adds_one_event(sched, time, e);
    }
}

/// What arrives is handed over exactly where its link is up, and is counted
/// either way. Slow links and lost messages are no matter at that point.
pub proof fn law_arrivals_are_judged_by_their_link(net: NetView, from: NodeId, to: NodeId)
    requires
        net.stats.delivered < u64::MAX,
        net.stats.dropped_partition < u64::MAX,
    ensures
        ({
            let (n, ok) = net.accept(from, to);
            &&& ok <==> !net.blocked.contains((from.0, to.0))
            &&& n.stats.delivered - net.stats.delivered == if ok {
                1int
            } else {
                0
            }
            &&& n.stats.dropped_partition - net.stats.dropped_partition == if ok {
                0int
            } else {
                1
            }
            &&& n.stats.sent == net.stats.sent && n.stats.dropped_loss == net.stats.dropped_loss
            &&& n.blocked == net.blocked && n.slow == net.slow && n.cfg == net.cfg && n.next_msg
                == net.next_msg
        }),
{
}

/// Isolating a node cuts every link to and from it, and no link between two
/// others.
pub proof fn law_isolation_cuts_one_node_off(net: NetView, node: NodeId, a: NodeId, b: NodeId)
    requires
        a.0 < net.nodes,
        b.0 < net.nodes,
        a != b,
    ensures
        a == node || b == node ==> net.isolate(node).is_blocked(a, b),
        a != node && b != node ==> net.isolate(node).is_blocked(a, b) == net.is_blocked(a, b),
        net.isolate(node).is_blocked(a, a) == net.is_blocked(a, a),
        net.isolate(node).slow == net.slow,
{
}

proof fn lemma_group(groups: Seq<Seq<NodeId>>, node: NodeId, i: int)
    requires
        0 <= i < groups.len(),
        groups[i].contains(node),
        forall|j: int| 0 <= j < groups.len() && j != i ==> !(#[trigger] groups[j]).contains(node),
    ensures
        group_of(groups, node.0) == Some(i),
    decreases groups.len(),
{
    assert(NodeId(node.0) == node);
    if i < groups.len() - 1 {
        assert(!groups[groups.len() - 1].contains(node));
        assert forall|j: int| 0 <= j < groups.len() - 1 && j != i implies !(
        #[trigger] groups.drop_last()[j]).contains(node) by {
            assert(groups.drop_last()[j] == groups[j]);
        }
        lemma_group(groups.drop_last(), node, i);
    }
}

proof fn lemma_no_group(groups: Seq<Seq<NodeId>>, node: NodeId)
    requires
        forall|j: int| 0 <= j < groups.len() ==> !(#[trigger] groups[j]).contains(node),
    ensures
        group_of(groups, node.0) is None,
    decreases groups.len(),
{
    if groups.len() > 0 {
        assert(!groups[groups.len() - 1].contains(node));
        assert forall|j: int| 0 <= j < groups.len() - 1 implies !(
        #[trigger] groups.drop_last()[j]).contains(node) by {
            assert(groups.drop_last()[j] == groups[j]);
        }
        lemma_no_group(groups.drop_last(), node);
    }
}

/// A partition into groups that share no node: two nodes of different groups
/// cannot talk, in either direction; two of one group can as before; and a node
/// in no group can talk to everyone as before.
pub proof fn law_a_partition_parts_its_groups(
    net: NetView,
    groups: Seq<Seq<NodeId>>,
    a: NodeId,
    i: int,
    b: NodeId,
    j: int,
    outside: NodeId,
)
    requires
        a.0 < net.nodes,
        b.0 < net.nodes,
        0 <= i < groups.len(),
        0 <= j < groups.len(),
        groups[i].contains(a),
        groups[j].contains(b),
        forall|k: int| 0 <= k < groups.len() && k != i ==> !(#[trigger] groups[k]).contains(a),
        forall|k: int| 0 <= k < groups.len() && k != j ==> !(#[trigger] groups[k]).contains(b),
        forall|k: int| 0 <= k < groups.len() ==> !(#[trigger] groups[k]).contains(outside),
    ensures
        i != j ==> net.partition(groups).is_blocked(a, b) && net.partition(groups).is_blocked(b, a),
        i == j ==> net.partition(groups).is_blocked(a, b) == net.is_blocked(a, b),
        net.partition(groups).is_blocked(a, outside) == net.is_blocked(a, outside),
        net.partition(groups).is_blocked(outside, a) == net.is_blocked(outside, a),
        net.partition(groups).slow == net.slow,
{
    lemma_group(groups, a, i);
    lemma_group(groups, b, j);
    lemma_no_group(groups, outside);
    assert(apart(groups, a.0, b.0) == (i != j));
}

/// Bits are flipped as often as the network does that: never where it never
/// does, and always, of anything there is, where it always does.
pub proof fn law_corruption_is_by_chance(net: NetView, rng: Rng, payload: Seq<u8>)
    ensures
        net.cfg.corrupt_ppm == 0 ==> carried(net.cfg, rng, payload) == (payload, false, rng),
        net.cfg.corrupt_ppm >= 1_000_000 && payload.len() > 0 ==> carried(net.cfg, rng, payload).1,
        payload.len() == 0 ==> carried(net.cfg, rng, payload).0 == payload,
{
}

/// A node that is up sends over the network and is sent to over it; what the
/// network makes of it is all that happens.
pub proof fn law_running_nodes_use_the_network(w: WorldView, from: NodeId, to: NodeId, payload: Seq<u8>)
    requires
        w.wf(),
        w.has(from),
        w.has(to),
        w.up[from.0 as int],
        w.up[to.0 as int],
    ensures
        ({
            let (v, copies) = w.send(from, to, payload);
            let s = w.net.send(w.rng, w.sched, from, to, payload);
            let (u, ok) = w.accept_delivery(from, to);
            &&& copies == s.copies && v.net == s.net && v.sched == s.sched && v.rng == s.rng
            &&& v.disks == w.disks && v.up == w.up && v.skews == w.skews
            &&& ok == !w.net.blocked.contains((from.0, to.0))
            &&& u.net == w.net.accept(from, to).0
            &&& u.sched == w.sched && u.disks == w.disks && u.up == w.up
        }),
{
    reveal(WorldView::send);
    reveal(WorldView::accept_delivery);
}

} // verus!
