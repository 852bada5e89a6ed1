//! What a node can rely on at the boundary to its world.

use crate::sim_io::clock::{Deadline, TimerTag};
use crate::sim_io::effect::{Effect, IoState};
use crate::sim_io::network::{majority, others};
use crate::sim_io::{enact, enact_all, sim_env, sim_state};
use crate::simcore::disk::FileId;
use crate::simcore::world::WorldView;
use crate::simcore::{Nanos, NodeId};
use vstd::prelude::*;

verus! {

/// A majority is more than half, and one fewer is not.
pub proof fn law_a_majority_is_the_smallest(n: nat)
    ensures
        2 * majority(n) > n,
        2 * (majority(n) - 1) <= n,
{
}

/// The peers of a node are all the others, each once, in order.
pub proof fn law_peers_are_the_others(n: nat, me: NodeId, x: NodeId)
    requires
        n <= u32::MAX,
    ensures
        others(n, me).contains(x) <==> x.0 < n && x != me,
        forall|i: int, j: int|
            0 <= i < j < others(n, me).len() ==> (#[trigger] others(n, me)[i]).0 < (
            #[trigger] others(n, me)[j]).0,
        forall|i: int| 0 <= i < others(n, me).len() ==> (#[trigger] others(n, me)[i]).0 < n,
        others(n, me).len() == n - (if me.0 < n {
            1int
        } else {
            0
        }),
    decreases n,
{
    if n > 0 {
        law_peers_are_the_others((n - 1) as nat, me, x);
        let (a, b) = (others((n - 1) as nat, me), others(n, me));
        if a.contains(x) {
            let k = choose|k: int| 0 <= k < a.len() && a[k] == x;
            assert(b[k] == x);
        }
        if b.contains(x) {
            let k = choose|k: int| 0 <= k < b.len() && b[k] == x;
            if k < a.len() {
                assert(a[k] == x);
            }
        }
        if x.0 == n - 1 && x != me {
            assert(b[b.len() - 1] == x);
        }
        assert forall|i: int, j: int| 0 <= i < j < b.len() implies (#[trigger] b[i]).0 < (
        #[trigger] b[j]).0 by {
            assert(b[i] == a[i]);
            if j < a.len() {
                assert(a[i].0 < a[j].0);
            }
        }
        assert forall|i: int| 0 <= i < b.len() implies (#[trigger] b[i]).0 < n by {
            if i < a.len() {
                assert(b[i] == a[i]);
            }
        }
    }
}

/// A deadline that is set fires after its delay, counted from when it was set,
/// and goes by the handle of the timer that was set for it.
pub proof fn law_deadlines_are_kept(d: Deadline, io: IoState, delay: Nanos, tag: TimerTag)
    requires
        d.disarmed(io).now() + delay <= u64::MAX,
    ensures
        ({
            let (e, out) = d.armed(io, delay, tag);
            &&& e.fires_at - d.disarmed(io).now() == delay
            &&& e.handle is Some && e.handle->Some_0.0 == d.disarmed(io).timer()
            &&& e.disarmed(out).log.last() == (Effect::CancelTimer { handle: e.handle->Some_0.0 })
        }),
{
}

/// What a node is told of its world before it has done anything: its own name,
/// how many nodes there are, the time on its own clock, what its own disk holds,
/// and the handles that come next.
pub proof fn law_a_node_is_told_its_own(w: WorldView, node: NodeId, file: FileId, lo: u64, hi: u64)
    requires
        w.has(node),
    ensures
        ({
            let s = sim_state(w, node);
            &&& s.env.me == node
            &&& s.env.cluster_size == w.nodes()
            &&& s.now() == w.skews[node.0 as int].shows(w.sched.now)
            &&& s.file(file) == w.disks[node.0 as int].file(file).cache
            &&& s.timer() == w.sched.next_id
            &&& s.op() == w.disks[node.0 as int].next_op
            &&& s.draw(lo, hi) == w.rng.range_of(lo, hi).0
            &&& s.log.len() == 0
        }),
{
    reveal(sim_env);
    reveal(enact_all);
}

/// A node acts on nothing but its own: its effects leave the disks of the
/// others, every clock and every link as they are.
pub proof fn law_effects_stay_local(w: WorldView, node: NodeId, e: Effect)
    requires
        w.wf(),
        w.has(node),
    ensures
        ({
            let v = enact(w, node, e);
            &&& forall|j: int|
                0 <= j < w.disks.len() && j != node.0 ==> #[trigger] v.disks[j] == w.disks[j]
            &&& v.disks.len() == w.disks.len()
            &&& v.skews == w.skews
            &&& v.net.cfg == w.net.cfg
            &&& v.seed == w.seed
            &&& !(e is Send) ==> v.net == w.net
            &&& !(e is CancelTimer) ==> v.sched.cancelled == w.sched.cancelled
            &&& e is Send || e is SetTimer || e is CancelTimer || e is Trace || e is Observe || e is Draw
                ==> v.disks == w.disks
            &&& e is Trace || e is Observe || e is Draw || e is CancelTimer ==> v.sched.queue
                == w.sched.queue
            &&& !(e is Trace || e is Observe) ==> v.trace == w.trace
        }),
{
    reveal(enact);
    reveal(WorldView::observe);
    reveal(WorldView::log);
    reveal(WorldView::send);
    reveal(WorldView::set_timer);
    reveal(WorldView::cancel);
    reveal(WorldView::disk_write);
    reveal(WorldView::disk_sync);
}

/// Each effect is the operation of the world that it names.
pub proof fn law_effects_are_what_they_say(
    w: WorldView,
    node: NodeId,
    to: NodeId,
    file: FileId,
    bytes: Seq<u8>,
    n: u64,
    tag: u64,
)
    requires
        to != node,
    ensures
        enact(w, node, Effect::Send { to, payload: bytes }) == w.send(node, to, bytes).0,
        enact(w, node, Effect::SetTimer { delay: n, tag }) == w.set_timer(node, n, tag),
        enact(w, node, Effect::CancelTimer { handle: n }) == w.cancel(n),
        enact(w, node, Effect::Sync { file }) == w.disk_sync(node, file),
        enact(w, node, Effect::Append { file, bytes }) == w.disk_write(
            node,
            file,
            w.appending(node, file, bytes),
        ),
{
    reveal(enact);
}

} // verus!
