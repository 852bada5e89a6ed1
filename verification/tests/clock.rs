//! Deadlines.

use simkv::sim_io::clock::{Clock, Deadline, TimerHandle, TimerTag};
use simkv::sim_io::effect::{Environment, IoState};
use simkv::simcore::world::WorldView;
use simkv::simcore::{Nanos, NodeId};

#[derive(Default)]
struct FakeClock {
    now: Nanos,
    next: u64,
    set: Vec<(Nanos, TimerTag, TimerHandle)>,
    cancelled: Vec<TimerHandle>,
}

// Only proofs look at these; nothing here runs them.
impl Environment for FakeClock {
    fn state(&self) -> IoState {
        unreachable!()
    }
    fn origin(&self) -> (WorldView, NodeId) {
        unreachable!()
    }
    fn valid(&self) -> bool {
        unreachable!()
    }
}

impl Clock for FakeClock {
    fn now(&self) -> Nanos {
        self.now
    }
    fn set_timer(&mut self, delay: Nanos, tag: TimerTag) -> TimerHandle {
        self.next += 1;
        let h = TimerHandle(self.next);
        self.set.push((self.now + delay, tag, h));
        h
    }
    fn cancel_timer(&mut self, handle: TimerHandle) {
        self.cancelled.push(handle);
    }
}

#[test]
fn reset_cancels_the_previous_timer() {
    let mut c = FakeClock::default();
    let mut d = Deadline::new();
    d.reset(&mut c, 100, 1);
    let first = c.set[0].2;
    d.reset(&mut c, 200, 1);
    assert_eq!(c.cancelled, vec![first], "the old timer must be cancelled");
    assert_eq!(d.fires_at(), 200);
    assert!(d.is_armed());
}

#[test]
fn disarm_is_idempotent() {
    let mut c = FakeClock::default();
    let mut d = Deadline::new();
    d.reset(&mut c, 100, 1);
    d.disarm(&mut c);
    d.disarm(&mut c);
    assert_eq!(c.cancelled.len(), 1);
    assert!(!d.is_armed());
}

#[test]
fn fired_is_true_once_then_false() {
    let mut c = FakeClock::default();
    let mut d = Deadline::new();
    d.reset(&mut c, 100, 1);
    assert!(d.fired(), "the armed timer fired");
    assert!(!d.fired(), "a duplicate delivery must not fire twice");
}

#[test]
fn deadline_tracks_node_time_not_true_time() {
    let mut c = FakeClock {
        now: 5_000,
        ..Default::default()
    };
    let mut d = Deadline::new();
    d.reset(&mut c, 250, 7);
    assert_eq!(d.fires_at(), 5_250);
    assert_eq!(c.set[0].1, 7);
}
