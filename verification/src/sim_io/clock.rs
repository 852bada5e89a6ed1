//! Time and timers, as seen by a node.
//!
//! A node reads *its own* clock, which is skewed and drifting relative to true
//! simulation time and to every other node's clock. Nothing in a correct
//! consensus implementation may compare timestamps across nodes; the skew is
//! here to make violations of that rule fail loudly.

use crate::count::{add_capped, plus};
use crate::sim_io::effect::{Effect, Environment, IoState};
use crate::simcore::Nanos;
use vstd::prelude::*;

verus! {

/// An application-chosen label for a timer, carried back when it fires.
pub type TimerTag = u64;

/// Handle used to cancel a timer that has not fired yet.
#[derive(Clone, Copy, PartialEq, Eq, PartialOrd, Ord, Debug, Hash)]
pub struct TimerHandle(pub u64);

pub trait Clock: Environment {
    /// This node's view of the current time. Monotonic within a node except
    /// when the fault injector steps the clock.
    fn now(&self) -> (r: Nanos)
        requires
            self.valid(),
        ensures
            r == self.state().now(),
    ;

    /// Fire a `Timer` event carrying `tag` after `delay` of this node's time.
    fn set_timer(&mut self, delay: Nanos, tag: TimerTag) -> (r: TimerHandle)
        requires
            old(self).valid(),
        ensures
            final(self).valid(),
            final(self).origin() == old(self).origin(),
            r.0 == old(self).state().timer(),
            final(self).state() == old(self).state().did(Effect::SetTimer { delay, tag }),
    ;

    /// Cancel a pending timer. Cancelling an already-fired timer is harmless.
    fn cancel_timer(&mut self, handle: TimerHandle)
        requires
            old(self).valid(),
        ensures
            final(self).valid(),
            final(self).origin() == old(self).origin(),
            final(self).state() == old(self).state().did(Effect::CancelTimer { handle: handle.0 }),
    ;
}

/// A timer that is set, reset, and cancelled as a unit.
///
/// Election and heartbeat logic resets timers constantly; forgetting to cancel
/// the previous one leaves duplicate timers firing, which is a classic source
/// of spurious elections. Keeping the handle inside the timer makes the
/// cancel-then-set sequence the only way to use it.
#[derive(Clone, Copy, Debug)]
pub struct Deadline {
    pub handle: Option<TimerHandle>,
    pub fires_at: Nanos,
}

impl Default for Deadline {
    fn default() -> (r: Deadline)
        ensures
            r == Deadline::idle(),
    {
        Deadline { handle: None, fires_at: 0 }
    }
}

impl Deadline {
    /// A timer that was never set.
    pub open spec fn idle() -> Deadline {
        Deadline { handle: None, fires_at: 0 }
    }

    /// The timer with nothing pending.
    pub open spec fn unset(self) -> Deadline {
        Deadline { handle: None, ..self }
    }

    /// The world after the timer was disarmed: a pending one is cancelled.
    pub open spec fn disarmed(self, io: IoState) -> IoState {
        match self.handle {
            Some(h) => io.did(Effect::CancelTimer { handle: h.0 }),
            None => io,
        }
    }

    /// The timer and the world after it was set anew.
    pub open spec fn armed(self, io: IoState, delay: Nanos, tag: TimerTag) -> (Deadline, IoState) {
        let mid = self.disarmed(io);
        (
            Deadline { handle: Some(TimerHandle(mid.timer())), fires_at: plus(mid.now(), delay) },
            mid.did(Effect::SetTimer { delay, tag }),
        )
    }

    pub fn new() -> (r: Deadline)
        ensures
            r == Deadline::idle(),
    {
        Deadline { handle: None, fires_at: 0 }
    }

    pub fn is_armed(&self) -> (r: bool)
        ensures
            r == (self.handle is Some),
    {
        self.handle.is_some()
    }

    pub fn fires_at(&self) -> (r: Nanos)
        ensures
            r == self.fires_at,
    {
        self.fires_at
    }

    /// Arm (or re-arm) the timer, cancelling any previous one.
    pub fn reset<C: Clock + ?Sized>(&mut self, clock: &mut C, delay: Nanos, tag: TimerTag)
        requires
            old(clock).valid(),
        ensures
            final(clock).valid(),
            final(clock).origin() == old(clock).origin(),
            (*final(self), final(clock).state()) == old(self).armed(
                old(clock).state(),
                delay,
                tag,
            ),
    {
        self.disarm(clock);
        self.fires_at = add_capped(clock.now(), delay);
        self.handle = Some(clock.set_timer(delay, tag));
    }

    pub fn disarm<C: Clock + ?Sized>(&mut self, clock: &mut C)
        requires
            old(clock).valid(),
        ensures
            final(clock).valid(),
            final(clock).origin() == old(clock).origin(),
            *final(self) == old(self).unset(),
            final(clock).state() == old(self).disarmed(old(clock).state()),
    {
        if let Some(h) = self.handle {
            self.handle = None;
            clock.cancel_timer(h);
        }
    }

    /// Called when a timer event arrives: reports whether it is the one this
    /// deadline is waiting for. A late copy of a cancelled timer returns false.
    pub fn fired(&mut self) -> (r: bool)
        ensures
            r == (old(self).handle is Some),
            *final(self) == old(self).unset(),
    {
        let was = self.handle.is_some();
        self.handle = None;
        was
    }
}

/// Setting a timer anew cancels exactly the one that was pending, and a timer
/// fires at most once for each time it was set.
pub proof fn law_reset_cancels_the_previous(d: Deadline, io: IoState, delay: Nanos, tag: TimerTag)
    ensures
        ({
            let (e, out) = d.armed(io, delay, tag);
            &&& e.handle is Some
            &&& out.log.last() == Effect::SetTimer { delay, tag }
            &&& d.handle matches Some(h) ==> out.log.drop_last() == io.log.push(
                Effect::CancelTimer { handle: h.0 },
            )
            &&& d.handle is None ==> out.log.drop_last() == io.log
            &&& e.unset().handle is None
        }),
{
    let (e, out) = d.armed(io, delay, tag);
    assert(out.log.drop_last() =~= d.disarmed(io).log);
}

/// A deadline that is not armed has nothing to cancel: disarming twice does no
/// more than disarming once.
pub proof fn law_disarming_twice_is_disarming_once(d: Deadline, io: IoState)
    ensures
        d.unset().disarmed(d.disarmed(io)) == d.disarmed(io),
        d.unset().unset() == d.unset(),
{
}

} // verus!
