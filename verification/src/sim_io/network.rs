//! Message passing, as seen by a node.
//!
//! The interface is deliberately impoverished: fire-and-forget bytes to a peer.
//! There is no delivery confirmation, no ordering guarantee, and no way to ask
//! whether a peer is reachable. Anything a node believes about its peers has to
//! be inferred from messages it actually received, which is the discipline that
//! makes a protocol survive a real network.

use crate::sim_io::effect::{Effect, Environment};
use crate::simcore::NodeId;
use vstd::prelude::*;

verus! {

pub trait Net: Environment {
    /// Who this node is.
    fn me(&self) -> (r: NodeId)
        requires
            self.valid(),
        ensures
            r == self.state().env.me,
    ;

    /// Total number of nodes in the cluster. Membership is static here;
    /// reconfiguration is out of scope.
    fn cluster_size(&self) -> (r: usize)
        requires
            self.valid(),
        ensures
            r == self.state().env.cluster_size,
    ;

    /// Send bytes to a peer. May be dropped, duplicated, delayed, reordered,
    /// or corrupted. Sending to oneself is a no-op that would otherwise hide
    /// bugs in quorum counting.
    fn send(&mut self, to: NodeId, payload: &[u8])
        requires
            old(self).valid(),
        ensures
            final(self).valid(),
            final(self).origin() == old(self).origin(),
            final(self).state() == old(self).state().did(Effect::Send { to, payload: payload@ }),
    ;
}

/// The first `n` nodes except one.
pub open spec fn others(n: nat, me: NodeId) -> Seq<NodeId>
    decreases n,
{
    if n == 0 {
        Seq::empty()
    } else {
        let rest = others((n - 1) as nat, me);
        let last = NodeId((n - 1) as u32);
        if last == me {
            rest
        } else {
            rest.push(last)
        }
    }
}

/// Every node except me, in a fixed order.
pub fn peers<N: Net + ?Sized>(net: &N) -> (r: Vec<NodeId>)
    requires
        net.valid(),
    ensures
        r@ == others(net.state().env.cluster_size, net.state().env.me),
{
    let me = net.me();
    let n: usize = net.cluster_size();
    let mut out: Vec<NodeId> = Vec::new();
    let mut i: usize = 0;
    while i < n
        invariant
            i <= n,
            out@ == others(i as nat, me),
        decreases n - i,
    {
        let id = NodeId(i as u32);
        if id != me {
            out.push(id);
        }
        i += 1;
    }
    out
}

/// Smallest number of nodes that constitutes a majority.
pub open spec fn majority(n: nat) -> nat {
    n / 2 + 1
}

/// Smallest number of nodes that constitutes a majority.
pub fn quorum(cluster_size: usize) -> (r: usize)
    ensures
        r == majority(cluster_size as nat),
        2 * r > cluster_size,
{
    cluster_size / 2 + 1
}

/// Any two quorums of one cluster have a node in common.
pub proof fn law_quorums_intersect(all: Set<NodeId>, a: Set<NodeId>, b: Set<NodeId>)
    requires
        all.finite(),
        a.subset_of(all),
        b.subset_of(all),
        a.len() >= majority(all.len()),
        b.len() >= majority(all.len()),
    ensures
        !a.intersect(b).is_empty(),
        exists|n: NodeId| a.contains(n) && #[trigger] b.contains(n),
{
    vstd::set_lib::lemma_len_subset(a, all);
    vstd::set_lib::lemma_len_subset(b, all);
    if a.intersect(b).is_empty() {
        assert(a.disjoint(b)) by {
            assert forall|n: NodeId| a.contains(n) implies !b.contains(n) by {
                if b.contains(n) {
                    assert(a.intersect(b).contains(n));
                }
            }
        }
        vstd::set_lib::lemma_set_disjoint_lens(a, b);
        assert(a.union(b).subset_of(all));
        vstd::set_lib::lemma_len_subset(a.union(b), all);
    }
    let n = choose|n: NodeId| a.intersect(b).contains(n);
    assert(a.contains(n) && b.contains(n));
}

} // verus!
