//! What the parts of the world do, one operation at a time.

use crate::simcore::faults::{drift, signed, ClockSkew, FaultConfig};
use crate::simcore::rng::{law_range_in_bounds, Rng, WORD};
use crate::simcore::scheduler::{kept, lemma_place, place_for, EventId, EventView, FiredView, SchedView};
use crate::simcore::world::{clocks, survives, WorldView};
use crate::simcore::{Nanos, NodeId};
use vstd::prelude::*;

verus! {

// ---- clocks ----------------------------------------------------------------

/// A jump steps a clock by exactly its length, from where the clock stood. The
/// clock's rate, every other clock and everything else but the trace stay as
/// they were.
pub proof fn law_a_jump_steps_the_clock(w: WorldView, node: NodeId, delta: i64)
    requires
        w.wf(),
        w.has(node),
        i64::MIN <= w.skews[node.0 as int].offset + delta <= i64::MAX,
    ensures
        ({
            let c = w.clock_jump(node, delta);
            let i = node.0 as int;
            &&& c.skews.len() == w.skews.len()
            &&& c.skews[i].offset - w.skews[i].offset == delta
            &&& c.skews[i].drift_ppm == w.skews[i].drift_ppm
            &&& forall|j: int| 0 <= j < w.skews.len() && j != i ==> #[trigger] c.skews[j] == w.skews[j]
            &&& c.sched == w.sched
            &&& c.rng == w.rng
            &&& c.net == w.net
            &&& c.faults == w.faults
            &&& c.disks == w.disks
            &&& c.up == w.up
            &&& c.incarnation == w.incarnation
            &&& c.seed == w.seed
        }),
{
    reveal(WorldView::clock_jump);
    reveal(WorldView::observe);
}

/// Jumps add up: two of them move the clocks as one of their sum does, and a
/// jump back undoes a jump.
pub proof fn law_jumps_add_up(w: WorldView, node: NodeId, one: i64, two: i64)
    requires
        w.wf(),
        w.has(node),
        i64::MIN <= w.skews[node.0 as int].offset + one <= i64::MAX,
        i64::MIN <= w.skews[node.0 as int].offset + one + two <= i64::MAX,
        i64::MIN <= one + two <= i64::MAX,
    ensures
        w.clock_jump(node, one).clock_jump(node, two).skews == w.clock_jump(
            node,
            (one + two) as i64,
        ).skews,
        one + two == 0 ==> w.clock_jump(node, one).clock_jump(node, two).skews == w.skews,
{
    reveal(WorldView::clock_jump);
    reveal(WorldView::observe);
    let both = w.clock_jump(node, one).clock_jump(node, two).skews;
    assert(both =~= w.clock_jump(node, (one + two) as i64).skews);
    if one + two == 0 {
        assert(both =~= w.skews);
    }
}

/// Drift is a rate: over a million nanoseconds a clock gains as many as its
/// rate says, in proportion, to within one; it loses as much as it would gain
/// at the opposite rate.
pub proof fn law_drift_is_a_rate(time: u64, ppm: i64)
    requires
        ppm > i64::MIN,
    ensures
        -1_000_000 < drift(time, ppm) * 1_000_000 - time * ppm < 1_000_000,
        drift(time, (0 - ppm) as i64) == 0 - drift(time, ppm),
        drift(time, 0) == 0,
        drift(0, ppm) == 0,
        ppm >= 0 ==> drift(time, ppm) >= 0 && drift(time, ppm) * 1_000_000 <= time * ppm,
{
    let m = if ppm >= 0 {
        ppm as int
    } else {
        0 - ppm
    };
    let p = time * m;
    assert(p >= 0) by (nonlinear_arith)
        requires
            p == time * m,
            time >= 0,
            m >= 0,
    ;
    assert(time * ppm == if ppm >= 0 {
        p
    } else {
        0 - p
    }) by (nonlinear_arith)
        requires
            p == time * m,
            m == if ppm >= 0 {
                ppm as int
            } else {
                0 - ppm
            },
    ;
    assert(time * 0 == 0 && 0 * m == 0) by (nonlinear_arith);
    assert(p == 1_000_000 * (p / 1_000_000) + p % 1_000_000);
}

/// A clock shows the time that it is, moved by its offset and its drift; one
/// that would stand before the beginning shows the beginning.
pub proof fn law_a_clock_shows_its_error(c: ClockSkew, time: Nanos)
    requires
        time + c.offset + drift(time, c.drift_ppm) <= u64::MAX,
    ensures
        time + c.offset + drift(time, c.drift_ppm) >= 0 ==> c.shows(time) - time - c.offset == drift(
            time,
            c.drift_ppm,
        ),
        time + c.offset + drift(time, c.drift_ppm) < 0 ==> c.shows(time) == 0,
{
    let t = time + c.offset + drift(time, c.drift_ppm);
    if t >= 0 {
        assert(t % (WORD as int) == t) by (nonlinear_arith)
            requires
                0 <= t < WORD,
        ;
    }
}

/// A clock drawn at random is off by no more than it may be, in either
/// direction, and its rate is that of a poor crystal at worst.
pub proof fn law_random_clocks_are_bounded(rng: Rng, max_offset: Nanos)
    ensures
        ({
            let c = ClockSkew::random_of(rng, max_offset).0;
            &&& -max_offset <= c.offset <= max_offset
            &&& -200 <= c.drift_ppm <= 200
        }),
{
    law_range_in_bounds(rng, 0, max_offset);
    let (mag, r) = rng.upto_of(max_offset);
    let (negative, q) = r.chance_of(500_000);
    law_range_in_bounds(q, 0, 400);
}

/// A signed magnitude has that magnitude and that sign, as far as there are
/// signed numbers.
pub proof fn law_signs_keep_magnitudes(mag: u64)
    ensures
        mag <= i64::MAX ==> signed(mag, false) == mag && signed(mag, true) == 0 - mag,
        mag > i64::MAX ==> signed(mag, false) == i64::MAX && signed(mag, true) == 0 - i64::MAX,
{
}

/// Every node of a new world has a clock of its own: true where skew is off,
/// and within the limit where it is on.
pub proof fn law_new_clocks(cfg: FaultConfig, rng: Rng, n: nat, i: int)
    requires
        0 <= i < n,
    ensures
        ({
            let (s, r) = clocks(cfg, rng, n);
            &&& s.len() == n
            &&& !cfg.enable_clock_skew ==> s[i].offset == 0 && s[i].drift_ppm == 0 && r == rng
            &&& cfg.enable_clock_skew ==> -cfg.max_clock_skew <= s[i].offset <= cfg.max_clock_skew
                && -200 <= s[i].drift_ppm <= 200
        }),
    decreases n,
{
    let (s, r) = clocks(cfg, rng, (n - 1) as nat);
    law_random_clocks_are_bounded(r, cfg.max_clock_skew);
    if n > 1 {
        if i < n - 1 {
            law_new_clocks(cfg, rng, (n - 1) as nat, i);
        } else {
            law_new_clocks(cfg, rng, (n - 1) as nat, 0);
        }
    }
}

// ---- the schedule ----------------------------------------------------------

/// Scheduling adds one event and takes none away: it has the next id, fires at
/// the time asked for, and carries what it was given.
pub proof fn law_scheduling_adds_one_event(s: SchedView, time: Nanos, e: EventView)
    ensures
        ({
            let t = s.at(time, e);
            let f = FiredView { time, id: s.next_id, event: e };
            &&& t.queue.to_multiset() == s.queue.to_multiset().insert(f)
            &&& t.queue.len() == s.queue.len() + 1
            &&& t.queue.contains(f)
            &&& s.next_id < u64::MAX ==> t.next_id == s.next_id + 1
            &&& t.now == s.now
            &&& t.cancelled == s.cancelled
            &&& t.fired == s.fired
        }),
{
    broadcast use vstd::seq_lib::group_to_multiset_ensures;

    let p = place_for(s.queue, time);
    lemma_place(s.queue, time);
    let f = FiredView { time, id: s.next_id, event: e };
    let t = s.at(time, e);
    assert(t.queue[p] == f);
}

/// A delay counts from now.
pub proof fn law_delays_count_from_now(s: SchedView, delay: Nanos, e: EventView)
    requires
        s.now + delay <= u64::MAX,
    ensures
        s.after(delay, e).queue.contains(
            FiredView { time: (s.now + delay) as u64, id: s.next_id, event: e },
        ),
        s.after(delay, e).queue.len() == s.queue.len() + 1,
{
    law_scheduling_adds_one_event(s, (s.now + delay) as u64, e);
}

/// Firing takes only what fired and what was cancelled off the queue: every
/// other event is still to come, and a cancelled one never fires.
pub proof fn law_firing_keeps_the_rest(s: SchedView, f: FiredView)
    requires
        s.wf(),
        s.queue.contains(f),
        !s.cancelled.contains(f.id),
    ensures
        s.next().1 is Some,
        s.next().1 == Some(f) || s.next().0.queue.contains(f),
        s.fired < u64::MAX ==> s.next().0.fired == s.fired + 1,
        s.next().0.next_id == s.next_id,
    decreases s.queue.len(),
{
    let i = choose|i: int| 0 <= i < s.queue.len() && s.queue[i] == f;
    let g = s.queue[0];
    let rest = s.queue.drop_first();
    if i > 0 {
        assert(rest[i - 1] == f);
        assert(s.queue[0].id != s.queue[i].id);
    }
    if s.cancelled.contains(g.id) {
        let t = SchedView { queue: rest, cancelled: s.cancelled.remove(g.id), ..s };
        assert forall|a: int, b: int| 0 <= a < b < rest.len() implies (#[trigger] rest[a]).id != (
        #[trigger] rest[b]).id && rest[a].fires_before(rest[b]) by {
            assert(s.queue[a + 1].id != s.queue[b + 1].id);
            assert(s.queue[a + 1].fires_before(s.queue[b + 1]));
        }
        assert forall|a: int| 0 <= a < rest.len() implies (#[trigger] rest[a]).id < s.next_id
            && rest[a].time >= s.now by {
            assert(rest[a] == s.queue[a + 1]);
        }
        law_firing_keeps_the_rest(t, f);
    }
}

proof fn lemma_kept_filter(q: Seq<FiredView>, keep: spec_fn(EventView) -> bool)
    ensures
        kept(q, keep) == q.filter(|f: FiredView| keep(f.event)),
    decreases q.len(),
{
    reveal(Seq::filter);
    if q.len() > 0 {
        lemma_kept_filter(q.drop_last(), keep);
    }
}

/// A crash changes this and no more: the node is down, in a new incarnation;
/// its timers and completions are gone, and the rest of the queue keeps its
/// order. No other node, no clock and no link is touched, and no time passes.
pub proof fn law_a_crash_is_local(w: WorldView, node: NodeId)
    requires
        w.wf(),
        w.has(node),
        w.up[node.0 as int],
        w.incarnation[node.0 as int] < u64::MAX,
    ensures
        ({
            let c = w.crash_node(node);
            let i = node.0 as int;
            &&& !c.up[i]
            &&& c.incarnation[i] == w.incarnation[i] + 1
            &&& c.disks[i] == w.disks[i].crash(w.rng).0
            &&& forall|j: int|
                0 <= j < w.up.len() && j != i ==> #[trigger] c.up[j] == w.up[j] && c.incarnation[j]
                    == w.incarnation[j] && c.disks[j] == w.disks[j]
            &&& c.sched.queue == w.sched.queue.filter(
                |f: FiredView|
                    match f.event {
                        EventView::Timer { node: n, .. } => n != node,
                        EventView::Storage { node: n, .. } => n != node,
                        _ => true,
                    },
            )
            &&& c.sched.now == w.sched.now
            &&& c.sched.next_id == w.sched.next_id
            &&& c.sched.cancelled == w.sched.cancelled
            &&& c.skews == w.skews
            &&& c.net == w.net
            &&& c.faults == w.faults
            &&& c.wf()
        }),
{
    reveal(WorldView::crash_node);
    reveal(WorldView::observe);
    let keep = |e: EventView| survives(e, node);
    lemma_kept_filter(w.sched.queue, keep);
    let mine = |f: FiredView|
        match f.event {
            EventView::Timer { node: n, .. } => n != node,
            EventView::Storage { node: n, .. } => n != node,
            _ => true,
        };
    assert(mine =~= (|f: FiredView| keep(f.event)));
}

/// A restart brings a node that is down back up and changes nothing else; one
/// of a node that is up changes nothing at all.
pub proof fn law_a_restart_is_local(w: WorldView, node: NodeId)
    requires
        w.wf(),
        w.has(node),
    ensures
        ({
            let c = w.restart_node(node);
            let i = node.0 as int;
            &&& c.up[i]
            &&& w.up[i] ==> c == w
            &&& forall|j: int| 0 <= j < w.up.len() && j != i ==> #[trigger] c.up[j] == w.up[j]
            &&& c.up.len() == w.up.len()
            &&& c.incarnation == w.incarnation
            &&& c.disks == w.disks
            &&& c.skews == w.skews
            &&& c.net == w.net
            &&& c.sched == w.sched
            &&& c.rng == w.rng
            &&& c.faults == w.faults
        }),
{
    reveal(WorldView::restart_node);
    reveal(WorldView::observe);
}

/// A timer comes up for its node, with its tag, once its delay has passed; one
/// that is cancelled never does.
pub proof fn law_timers_fire_when_due(w: WorldView, node: NodeId, delay: Nanos, timer: u64)
    requires
        w.sched.now + delay <= u64::MAX,
    ensures
        ({
            let c = w.set_timer(node, delay, timer);
            let f = FiredView {
                time: (w.sched.now + delay) as u64,
                id: w.sched.next_id,
                event: EventView::Timer { node, timer },
            };
            &&& c.sched.queue.contains(f)
            &&& c.sched.queue.len() == w.sched.queue.len() + 1
            &&& c.cancel(w.sched.next_id).sched.cancelled.contains(f.id)
            &&& forall|id: EventId|
                id != f.id ==> (#[trigger] c.cancel(f.id).sched.cancelled.contains(id)
                    == c.sched.cancelled.contains(id))
            &&& c.cancel(f.id).sched.queue == c.sched.queue
            &&& c.rng == w.rng
            &&& c.up == w.up
        }),
{
    reveal(WorldView::set_timer);
    reveal(WorldView::cancel);
    law_delays_count_from_now(w.sched, delay, EventView::Timer { node, timer });
}

} // verus!
