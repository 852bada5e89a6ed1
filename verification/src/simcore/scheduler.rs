//! The discrete-event scheduler: the simulator's only source of time.
//!
//! There are no threads and no wall clock. Everything that will ever happen is
//! an [`Event`] sitting in a queue ordered by `(time, insertion sequence)`. Ties
//! break by insertion order and by nothing else, so two runs with the same seed
//! fire events in exactly the same order.
//!
//! Virtual time also means a simulated hour costs microseconds of real time,
//! which is what makes wide seed sweeps affordable.

use crate::bytes::copy_range;
use crate::count::{add_capped, bump, count_up, plus};
use crate::simcore::disk::{IoResult, OpId};
use crate::simcore::faults::{FaultAction, FaultView};
use crate::simcore::{Nanos, NodeId};
use std::collections::BTreeSet;
use vstd::prelude::*;

verus! {

pub type EventId = u64;

/// Everything that can happen in the world.
#[derive(Debug)]
pub enum Event {
    /// A timer set by a node has expired.
    Timer { node: NodeId, timer: u64 },
    /// A network message arrives at its destination.
    Deliver { from: NodeId, to: NodeId, payload: Vec<u8>, msg: u64 },
    /// A storage operation has completed (and only now may be acted upon).
    Storage { node: NodeId, op: OpId, result: IoResult },
    /// The fault injector wants to do something to the cluster.
    Fault(FaultAction),
    /// Reserved for the layer driving the simulation (clients, workload ticks).
    App { tag: u32, arg: u64 },
}

/// An event, as a mathematical value.
pub enum EventView {
    Timer { node: NodeId, timer: u64 },
    Deliver { from: NodeId, to: NodeId, payload: Seq<u8>, msg: u64 },
    Storage { node: NodeId, op: OpId, result: IoResult },
    Fault(FaultView),
    App { tag: u32, arg: u64 },
}

impl View for Event {
    type V = EventView;

    open spec fn view(&self) -> EventView {
        match self {
            Event::Timer { node, timer } => EventView::Timer { node: *node, timer: *timer },
            Event::Deliver { from, to, payload, msg } => EventView::Deliver {
                from: *from,
                to: *to,
                payload: payload@,
                msg: *msg,
            },
            Event::Storage { node, op, result } => EventView::Storage {
                node: *node,
                op: *op,
                result: *result,
            },
            Event::Fault(a) => EventView::Fault(a@),
            Event::App { tag, arg } => EventView::App { tag: *tag, arg: *arg },
        }
    }
}

impl EventView {
    /// Short label used in traces and fingerprints.
    pub open spec fn tag(self) -> Seq<char> {
        match self {
            EventView::Timer { .. } => "timer"@,
            EventView::Deliver { .. } => "deliver"@,
            EventView::Storage { .. } => "storage"@,
            EventView::Fault(_) => "fault"@,
            EventView::App { .. } => "app"@,
        }
    }

    /// The node this event is directed at, if any.
    pub open spec fn target(self) -> Option<NodeId> {
        match self {
            EventView::Timer { node, .. } => Some(node),
            EventView::Deliver { to, .. } => Some(to),
            EventView::Storage { node, .. } => Some(node),
            EventView::Fault(_) => None,
            EventView::App { .. } => None,
        }
    }
}

impl Clone for Event {
    fn clone(&self) -> (r: Event)
        ensures
            r@ == self@,
    {
        match self {
            Event::Timer { node, timer } => Event::Timer { node: *node, timer: *timer },
            Event::Deliver { from, to, payload, msg } => {
                let copy = copy_range(payload.as_slice(), 0, payload.len());
                assert(copy@ =~= payload@);
                Event::Deliver { from: *from, to: *to, payload: copy, msg: *msg }
            },
            Event::Storage { node, op, result } => Event::Storage {
                node: *node,
                op: *op,
                result: *result,
            },
            Event::Fault(a) => Event::Fault(a.clone()),
            Event::App { tag, arg } => Event::App { tag: *tag, arg: *arg },
        }
    }
}

impl Event {
    /// Short label used in traces and fingerprints.
    pub fn tag(&self) -> (r: &'static str)
        ensures
            r@ == self@.tag(),
    {
        match self {
            Event::Timer { .. } => "timer",
            Event::Deliver { .. } => "deliver",
            Event::Storage { .. } => "storage",
            Event::Fault(_) => "fault",
            Event::App { .. } => "app",
        }
    }

    /// The node this event is directed at, if any.
    pub fn target(&self) -> (r: Option<NodeId>)
        ensures
            r == self@.target(),
    {
        match self {
            Event::Timer { node, .. } => Some(*node),
            Event::Deliver { to, .. } => Some(*to),
            Event::Storage { node, .. } => Some(*node),
            Event::Fault(_) => None,
            Event::App { .. } => None,
        }
    }
}

/// An event with the time it fires at.
#[derive(Debug)]
pub struct Fired {
    pub time: Nanos,
    pub id: EventId,
    pub event: Event,
}

/// An event with the time it fires at, as a mathematical value.
pub struct FiredView {
    pub time: Nanos,
    pub id: EventId,
    pub event: EventView,
}

impl FiredView {
    /// Whether this event fires before another: earlier, or at the same time
    /// but scheduled earlier.
    pub open spec fn fires_before(self, other: FiredView) -> bool {
        self.time < other.time || (self.time == other.time && self.id < other.id)
    }
}

impl View for Fired {
    type V = FiredView;

    open spec fn view(&self) -> FiredView {
        FiredView { time: self.time, id: self.id, event: self.event@ }
    }
}

impl Clone for Fired {
    fn clone(&self) -> (r: Fired)
        ensures
            r@ == self@,
    {
        Fired { time: self.time, id: self.id, event: self.event.clone() }
    }
}

/// The views of a list of scheduled events.
pub open spec fn fired_views(q: Seq<Fired>) -> Seq<FiredView> {
    q.map_values(|f: Fired| f@)
}

/// Decides what happens next.
#[derive(Debug)]
pub struct Scheduler {
    now: Nanos,
    next_id: EventId,
    /// What is to happen, in the order it will.
    queue: Vec<Fired>,
    cancelled: BTreeSet<EventId>,
    fired: u64,
}

/// The scheduler as a mathematical value.
#[verifier::ext_equal]
pub struct SchedView {
    pub now: Nanos,
    pub next_id: EventId,
    pub queue: Seq<FiredView>,
    pub cancelled: Set<EventId>,
    pub fired: u64,
}

impl View for Scheduler {
    type V = SchedView;

    closed spec fn view(&self) -> SchedView {
        SchedView {
            now: self.now,
            next_id: self.next_id,
            queue: fired_views(self.queue@),
            cancelled: self.cancelled@,
            fired: self.fired,
        }
    }
}

/// The place behind every event that fires at `time` or before.
pub open spec fn place_for(q: Seq<FiredView>, time: Nanos) -> int
    decreases q.len(),
{
    if q.len() == 0 || q.last().time <= time {
        q.len() as int
    } else {
        place_for(q.drop_last(), time)
    }
}

/// The events of a queue that a predicate keeps.
pub open spec fn kept(q: Seq<FiredView>, keep: spec_fn(EventView) -> bool) -> Seq<FiredView>
    decreases q.len(),
{
    if q.len() == 0 {
        Seq::empty()
    } else if keep(q.last().event) {
        kept(q.drop_last(), keep).push(q.last())
    } else {
        kept(q.drop_last(), keep)
    }
}

impl SchedView {
    /// Nothing scheduled, at time zero.
    pub open spec fn blank() -> SchedView {
        SchedView {
            now: 0,
            next_id: 0,
            queue: Seq::empty(),
            cancelled: Set::empty(),
            fired: 0,
        }
    }

    /// An event scheduled at an absolute time.
    pub open spec fn at(self, time: Nanos, event: EventView) -> SchedView {
        SchedView {
            next_id: bump(self.next_id),
            queue: self.queue.insert(
                place_for(self.queue, time),
                FiredView { time, id: self.next_id, event },
            ),
            ..self
        }
    }

    /// An event scheduled some time from now.
    pub open spec fn after(self, delay: Nanos, event: EventView) -> SchedView {
        self.at(plus(self.now, delay), event)
    }

    /// The next event that is not cancelled, and the scheduler after it.
    pub open spec fn next(self) -> (SchedView, Option<FiredView>)
        decreases self.queue.len(),
    {
        if self.queue.len() == 0 {
            (self, None)
        } else {
            let f = self.queue[0];
            let rest = self.queue.drop_first();
            if self.cancelled.contains(f.id) {
                SchedView { queue: rest, cancelled: self.cancelled.remove(f.id), ..self }.next()
            } else {
                (
                    SchedView { now: f.time, queue: rest, fired: bump(self.fired), ..self },
                    Some(f),
                )
            }
        }
    }

    /// The time of the first event, from place `i` on, that is not cancelled.
    pub open spec fn live_from(self, i: int) -> Option<Nanos>
        decreases self.queue.len() - i,
    {
        if i >= self.queue.len() {
            None
        } else if self.cancelled.contains(self.queue[i].id) {
            self.live_from(i + 1)
        } else {
            Some(self.queue[i].time)
        }
    }

    /// Events are in the order of their times and, at the same time, in the
    /// order they were scheduled in; none lies in the past, and each has an id
    /// of its own.
    pub open spec fn wf(self) -> bool {
        &&& forall|i: int| 0 <= i < self.queue.len() ==> (#[trigger] self.queue[i]).id < self.next_id
        &&& forall|i: int, j: int|
            0 <= i < j < self.queue.len() ==> (#[trigger] self.queue[i]).id != (
            #[trigger] self.queue[j]).id
        &&& forall|i: int, j: int|
            0 <= i < j < self.queue.len() ==> (#[trigger] self.queue[i]).fires_before(
                #[trigger] self.queue[j],
            )
        &&& forall|i: int| 0 <= i < self.queue.len() ==> (#[trigger] self.queue[i]).time >= self.now
    }
}

pub proof fn lemma_place(q: Seq<FiredView>, time: Nanos)
    ensures
        0 <= place_for(q, time) <= q.len(),
        place_for(q, time) > 0 ==> q[place_for(q, time) - 1].time <= time,
        forall|i: int| place_for(q, time) <= i < q.len() ==> (#[trigger] q[i]).time > time,
    decreases q.len(),
{
    if q.len() > 0 && q.last().time > time {
        lemma_place(q.drop_last(), time);
        assert forall|i: int| place_for(q, time) <= i < q.len() implies (#[trigger] q[i]).time
            > time by {
            if i < q.len() - 1 {
                assert(q.drop_last()[i] == q[i]);
            }
        }
    }
}

impl Default for Scheduler {
    fn default() -> (r: Scheduler)
        ensures
            r@ == SchedView::blank(),
    {
        Scheduler::new()
    }
}

impl Scheduler {
    pub fn new() -> (r: Scheduler)
        ensures
            r@ == SchedView::blank(),
    {
        let r = Scheduler {
            now: 0,
            next_id: 0,
            queue: Vec::new(),
            cancelled: BTreeSet::new(),
            fired: 0,
        };
        assert(r@ =~= SchedView::blank());
        r
    }

    pub fn now(&self) -> (r: Nanos)
        ensures
            r == self@.now,
    {
        self.now
    }

    /// Number of events fired so far. Used as a fuel limit so a livelocked
    /// cluster fails the run instead of spinning forever.
    pub fn fired_count(&self) -> (r: u64)
        ensures
            r == self@.fired,
    {
        self.fired
    }

    pub fn pending(&self) -> (r: usize)
        ensures
            r == self@.queue.len(),
    {
        self.queue.len()
    }

    pub fn is_empty(&self) -> (r: bool)
        ensures
            r == (self@.queue.len() == 0),
    {
        self.queue.is_empty()
    }

    /// Schedule at an absolute time. Scheduling into the past is a bug in the
    /// caller, not a recoverable condition: it would make the run depend on
    /// insertion order rather than time.
    pub fn at(&mut self, time: Nanos, event: Event) -> (r: EventId)
        requires
            time >= old(self)@.now,
        ensures
            r == old(self)@.next_id,
            final(self)@ == old(self)@.at(time, event@),
    {
        let id: u64 = self.next_id;
        self.next_id = count_up(id);
        let ghost q = fired_views(self.queue@);
        let mut p: usize = self.queue.len();
        assert(q.take(p as int) =~= q);
        while p > 0 && self.queue[p - 1].time > time
            invariant
                p <= self.queue@.len(),
                q == fired_views(self.queue@),
                place_for(q, time) == place_for(q.take(p as int), time),
                self.now == old(self).now,
                self.next_id == bump(old(self).next_id),
                self.queue == old(self).queue,
                self.cancelled == old(self).cancelled,
                self.fired == old(self).fired,
            decreases p,
        {
            proof {
                let t = q.take(p as int);
                assert(t.last() == self.queue@[p - 1]@);
                assert(t.drop_last() =~= q.take(p - 1));
            }
            p -= 1;
        }
        proof {
            if p > 0 {
                assert(q.take(p as int).last() == self.queue@[p - 1]@);
            }
            assert(place_for(q, time) == p);
        }
        self.queue.insert(p, Fired { time, id, event });
        assert(self@ =~= old(self)@.at(time, event@));
        id
    }

    /// Schedule `delay` nanoseconds from now.
    pub fn after(&mut self, delay: Nanos, event: Event) -> (r: EventId)
        ensures
            r == old(self)@.next_id,
            final(self)@ == old(self)@.after(delay, event@),
    {
        let time: u64 = add_capped(self.now, delay);
        self.at(time, event)
    }

    /// Cancel a scheduled event. Cheap: the entry is tombstoned and skipped
    /// when it reaches the head of the queue.
    pub fn cancel(&mut self, id: EventId)
        ensures
            final(self)@ == (SchedView {
                cancelled: old(self)@.cancelled.insert(id),
                ..old(self)@
            }),
    {
        self.cancelled.insert(id);
    }

    pub fn is_cancelled(&self, id: EventId) -> (r: bool)
        ensures
            r == self@.cancelled.contains(id),
    {
        self.cancelled.contains(&id)
    }

    /// Pop the next live event, advancing virtual time to it.
    pub fn next(&mut self) -> (r: Option<Fired>)
        ensures
            final(self)@ == old(self)@.next().0,
            match r {
                Some(f) => old(self)@.next().1 == Some(f@),
                None => old(self)@.next().1 is None,
            },
    {
        let ghost expect = self@.next();
        while self.queue.len() > 0
            invariant
                expect == self@.next(),
                expect == old(self)@.next(),
            decreases self.queue@.len(),
        {
            let ghost before = self@;
            assert(before.queue[0] == self.queue@[0]@);
            let f = self.queue.remove(0);
            assert(fired_views(self.queue@) =~= before.queue.drop_first());
            if self.cancelled.contains(&f.id) {
                self.cancelled.remove(&f.id);
            } else {
                self.now = f.time;
                self.fired = count_up(self.fired);
                return Some(f);
            }
        }
        None
    }

    /// The time of the next live event, without popping it.
    pub fn peek_time(&self) -> (r: Option<Nanos>)
        ensures
            r == self@.live_from(0),
    {
        let ghost v = self@;
        let mut i: usize = 0;
        while i < self.queue.len()
            invariant
                i <= self.queue@.len(),
                v == self@,
                v.live_from(0) == v.live_from(i as int),
            decreases self.queue@.len() - i,
        {
            assert(v.queue[i as int] == self.queue@[i as int]@);
            if !self.cancelled.contains(&self.queue[i].id) {
                return Some(self.queue[i].time);
            }
            i += 1;
        }
        None
    }

    /// Drop every queued event that `keep` does not hold of. Used when a node
    /// crashes: its in-flight timers and disk completions die with it.
    pub fn retain<F: Fn(&Event) -> bool>(&mut self, keep: F)
        requires
            forall|e: &Event| #[trigger] call_requires(keep, (e,)),
        ensures
            forall|p: spec_fn(EventView) -> bool|
                (forall|e: &Event, b: bool| #[trigger] call_ensures(keep, (e,), b) ==> b == p(e@))
                    ==> final(self)@ == (SchedView {
                    queue: #[trigger] kept(old(self)@.queue, p),
                    ..old(self)@
                }),
    {
        let ghost q = fired_views(self.queue@);
        let mut all: Vec<Fired> = Vec::new();
        core::mem::swap(&mut self.queue, &mut all);
        let mut left: Vec<Fired> = Vec::new();
        // Turn the queue round, then take events from its back.
        while all.len() > 0
            invariant
                fired_views(all@) + fired_views(left@).reverse() == q,
            decreases all@.len(),
        {
            let ghost (a0, l0) = (fired_views(all@), fired_views(left@));
            if let Some(f) = all.pop() {
                let ghost v = f@;
                left.push(f);
                assert(fired_views(all@) =~= a0.drop_last());
                assert(fired_views(left@) =~= l0.push(v));
                assert(fired_views(all@) + fired_views(left@).reverse() =~= a0 + l0.reverse());
            }
        }
        assert(fired_views(left@).reverse() =~= q);
        let mut out: Vec<Fired> = Vec::new();
        assert(fired_views(out@) =~= Seq::empty());
        assert forall|p: spec_fn(EventView) -> bool| fired_views(out@) == #[trigger] kept(
            q.take(0),
            p,
        ) by {
            assert(q.take(0) =~= Seq::empty());
        }
        while left.len() > 0
            invariant
                forall|e: &Event| #[trigger] call_requires(keep, (e,)),
                left@.len() <= q.len(),
                fired_views(left@).reverse() =~= q.skip(q.len() - left@.len()),
                forall|p: spec_fn(EventView) -> bool|
                    (forall|e: &Event, b: bool| #[trigger]
                        call_ensures(keep, (e,), b) ==> b == p(e@)) ==> fired_views(out@)
                        == #[trigger] kept(q.take(q.len() - left@.len()), p),
            decreases left@.len(),
        {
            let ghost l0 = left@;
            let ghost o0 = fired_views(out@);
            let ghost k = q.len() - left@.len();
            if let Some(f) = left.pop() {
                proof {
                    assert(fired_views(l0).reverse()[0] == f@);
                    assert(q.skip(k)[0] == q[k]);
                    assert(q.take(k + 1).drop_last() =~= q.take(k));
                    assert(q.take(k + 1).last() == f@);
                    assert(fired_views(left@).reverse() =~= q.skip(k + 1)) by {
                        assert forall|i: int| 0 <= i < left@.len() implies fired_views(
                            left@,
                        ).reverse()[i] == q.skip(k + 1)[i] by {
                            assert(fired_views(l0).reverse()[i + 1] == q.skip(k)[i + 1]);
                        }
                    }
                }
                let stays = keep(&f.event);
                let ghost v = f@;
                let ghost ev = f.event;
                assert(call_ensures(keep, (&ev,), stays));
                if stays {
                    out.push(f);
                    assert(fired_views(out@) =~= o0.push(v));
                }
                assert forall|p: spec_fn(EventView) -> bool|
                    (forall|e: &Event, b: bool| #[trigger] call_ensures(keep, (e,), b) ==> b == p(
                        e@,
                    )) implies fired_views(out@) == #[trigger] kept(
                    q.take(q.len() - left@.len()),
                    p,
                ) by {
                    assert(o0 == kept(q.take(k), p));
                    assert(stays == p(ev@));
                    assert(q.len() - left@.len() == k + 1);
                }
            }
        }
        assert(q.take(q.len() as int) =~= q);
        self.queue = out;
    }

    /// Advance time with nothing scheduled, e.g. to let a quiescent period pass.
    pub fn advance_to(&mut self, time: Nanos)
        ensures
            final(self)@ == (SchedView {
                now: if time > old(self)@.now {
                    time
                } else {
                    old(self)@.now
                },
                ..old(self)@
            }),
    {
        if time > self.now {
            self.now = time;
        }
    }
}

// ---- what the scheduler promises -----------------------------------------

/// Scheduling at or after the present keeps the queue in order, behind every
/// event of the same time that was scheduled earlier.
pub proof fn law_at_keeps_order(s: SchedView, time: Nanos, e: EventView)
    requires
        s.wf(),
        time >= s.now,
        s.next_id < u64::MAX,
    ensures
        s.at(time, e).wf(),
        forall|i: int|
            place_for(s.queue, time) < i < s.at(time, e).queue.len() ==> (#[trigger] s.at(
                time,
                e,
            ).queue[i]).time > time,
{
    let p = place_for(s.queue, time);
    let t = s.at(time, e);
    lemma_place(s.queue, time);
    assert forall|i: int| 0 <= i < t.queue.len() && i != p implies #[trigger] t.queue[i]
        == s.queue[if i < p {
        i
    } else {
        i - 1
    }] by {}
    assert forall|i: int, j: int| 0 <= i < j < t.queue.len() implies (
    #[trigger] t.queue[i]).fires_before(#[trigger] t.queue[j]) by {
        if j == p {
            if i < p - 1 {
                assert(s.queue[i].fires_before(s.queue[p - 1]));
            }
            assert(t.queue[i] == s.queue[i]);
            assert(s.queue[i].id < s.next_id);
        } else if i == p {
            assert(s.queue[j - 1].time > time);
        } else {
            let (x, y) = (
                if i < p {
                    i
                } else {
                    i - 1
                },
                if j < p {
                    j
                } else {
                    j - 1
                },
            );
            assert(s.queue[x].fires_before(s.queue[y]));
        }
    }
}

/// Firing never turns time back: the event fired is not cancelled and not
/// earlier than the present, and of all queued events that are not cancelled it
/// is the earliest, and at equal times the one scheduled first; and the order
/// is kept.
pub proof fn law_next_moves_forward(s: SchedView)
    requires
        s.wf(),
    ensures
        s.next().0.wf(),
        s.next().0.now >= s.now,
        s.next().1 matches Some(f) ==> {
            &&& f.time == s.next().0.now
            &&& !s.cancelled.contains(f.id)
            &&& s.queue.contains(f)
            &&& forall|i: int|
                0 <= i < s.queue.len() && !s.cancelled.contains((#[trigger] s.queue[i]).id)
                    && s.queue[i] != f ==> f.fires_before(s.queue[i])
            &&& forall|i: int|
                0 <= i < s.next().0.queue.len() ==> f.fires_before(#[trigger] s.next().0.queue[i])
        },
        s.next().1 is None ==> {
            &&& s.next().0.queue.len() == 0
            &&& s.next().0.now == s.now
            &&& forall|i: int|
                0 <= i < s.queue.len() ==> s.cancelled.contains((#[trigger] s.queue[i]).id)
        },
    decreases s.queue.len(),
{
    if s.queue.len() > 0 {
        let f = s.queue[0];
        let rest = s.queue.drop_first();
        assert forall|i: int| 0 <= i < rest.len() implies f.fires_before(#[trigger] rest[i]) by {
            assert(rest[i] == s.queue[i + 1]);
            assert(s.queue[0].fires_before(s.queue[i + 1]));
        }
        assert forall|i: int, j: int| 0 <= i < j < rest.len() implies (
        #[trigger] rest[i]).fires_before(#[trigger] rest[j]) by {
            assert(s.queue[i + 1].fires_before(s.queue[j + 1]));
        }
        assert forall|i: int, j: int| 0 <= i < j < rest.len() implies (#[trigger] rest[i]).id != (
        #[trigger] rest[j]).id by {
            assert(s.queue[i + 1].id != s.queue[j + 1].id);
        }
        assert forall|i: int| 0 <= i < rest.len() implies (#[trigger] rest[i]).id < s.next_id by {
            assert(rest[i] == s.queue[i + 1]);
        }
        if s.cancelled.contains(f.id) {
            let t = SchedView { queue: rest, cancelled: s.cancelled.remove(f.id), ..s };
            assert(t.wf()) by {
                assert forall|i: int| 0 <= i < t.queue.len() implies (#[trigger] t.queue[i]).time
                    >= t.now by {
                    assert(rest[i] == s.queue[i + 1]);
                }
            }
            law_next_moves_forward(t);
            match t.next().1 {
                Some(g) => {
                    let i = choose|i: int| 0 <= i < rest.len() && rest[i] == g;
                    assert(s.queue[i + 1] == g);
                    assert(s.queue[0].id != s.queue[i + 1].id);
                    assert forall|k: int|
                        0 <= k < s.queue.len() && !s.cancelled.contains((#[trigger] s.queue[k]).id)
                            && s.queue[k] != g implies g.fires_before(s.queue[k]) by {
                        assert(rest[k - 1] == s.queue[k]);
                        assert(s.queue[0].id != s.queue[k].id);
                    }
                },
                None => {
                    assert forall|k: int| 0 <= k < s.queue.len() implies s.cancelled.contains(
                        (#[trigger] s.queue[k]).id,
                    ) by {
                        if k > 0 {
                            assert(rest[k - 1] == s.queue[k]);
                        }
                    }
                },
            }
        } else {
            assert(s.queue.contains(f));
            assert forall|k: int|
                0 <= k < s.queue.len() && !s.cancelled.contains((#[trigger] s.queue[k]).id)
                    && s.queue[k] != f implies f.fires_before(s.queue[k]) by {
                assert(s.queue[0].fires_before(s.queue[k]));
            }
        }
    }
}

proof fn lemma_live_shift(s: SchedView, t: SchedView, i: int)
    requires
        s.queue.len() > 0,
        t.queue == s.queue.drop_first(),
        t.cancelled == s.cancelled.remove(s.queue[0].id),
        forall|k: int| 0 < k < s.queue.len() ==> (#[trigger] s.queue[k]).id != s.queue[0].id,
        0 <= i <= t.queue.len(),
    ensures
        t.live_from(i) == s.live_from(i + 1),
    decreases t.queue.len() - i,
{
    if i < t.queue.len() {
        assert(t.queue[i] == s.queue[i + 1]);
        lemma_live_shift(s, t, i + 1);
    }
}

/// What is seen ahead is what comes: the time of the next live event is that of
/// the event which fires next.
pub proof fn law_the_next_event_is_seen_ahead(s: SchedView)
    requires
        s.wf(),
    ensures
        s.live_from(0) == match s.next().1 {
            Some(f) => Some(f.time),
            None => None,
        },
    decreases s.queue.len(),
{
    if s.queue.len() > 0 && s.cancelled.contains(s.queue[0].id) {
        let rest = s.queue.drop_first();
        let t = SchedView { queue: rest, cancelled: s.cancelled.remove(s.queue[0].id), ..s };
        assert(t.wf()) by {
            assert forall|i: int, j: int| 0 <= i < j < rest.len() implies (
            #[trigger] rest[i]).fires_before(#[trigger] rest[j]) && rest[i].id != rest[j].id by {
                assert(s.queue[i + 1].fires_before(s.queue[j + 1]));
                assert(s.queue[i + 1].id != s.queue[j + 1].id);
            }
            assert forall|i: int| 0 <= i < rest.len() implies (#[trigger] rest[i]).id < t.next_id
                && rest[i].time >= t.now by {
                assert(rest[i] == s.queue[i + 1]);
            }
        }
        lemma_live_shift(s, t, 0);
        law_the_next_event_is_seen_ahead(t);
    }
}

} // verus!
