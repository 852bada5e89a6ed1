//! The order of events.

use simkv::simcore::scheduler::{Event, Scheduler};

fn app(tag: u32, arg: u64) -> Event {
    Event::App { tag, arg }
}

fn arg_of(e: &Event) -> u64 {
    match e {
        Event::App { arg, .. } => *arg,
        _ => panic!("not an app event"),
    }
}

#[test]
fn fires_in_time_order() {
    let mut s = Scheduler::new();
    s.at(30, app(0, 3));
    s.at(10, app(0, 1));
    s.at(20, app(0, 2));
    let mut got = vec![];
    while let Some(f) = s.next() {
        got.push((f.time, arg_of(&f.event)));
    }
    assert_eq!(got, vec![(10, 1), (20, 2), (30, 3)]);
}

#[test]
fn ties_break_by_insertion_order() {
    let mut s = Scheduler::new();
    for i in 0..64 {
        s.at(100, app(0, i));
    }
    let mut got = vec![];
    while let Some(f) = s.next() {
        got.push(arg_of(&f.event));
    }
    assert_eq!(got, (0..64).collect::<Vec<_>>());
}

#[test]
fn time_advances_to_event() {
    let mut s = Scheduler::new();
    assert_eq!(s.now(), 0);
    s.at(500, app(0, 0));
    s.next().unwrap();
    assert_eq!(s.now(), 500);
    // `after` is relative to the new now.
    s.after(50, app(0, 1));
    assert_eq!(s.next().unwrap().time, 550);
}

#[test]
fn cancelled_events_do_not_fire() {
    let mut s = Scheduler::new();
    s.at(10, app(0, 1));
    let doomed = s.at(20, app(0, 2));
    s.at(30, app(0, 3));
    s.cancel(doomed);
    let mut got = vec![];
    while let Some(f) = s.next() {
        got.push(arg_of(&f.event));
    }
    assert_eq!(got, vec![1, 3]);
}

#[test]
fn retain_drops_matching_events() {
    let mut s = Scheduler::new();
    s.at(10, app(1, 0));
    s.at(20, app(2, 0));
    s.at(30, app(1, 1));
    s.retain(|e| matches!(e, Event::App { tag: 2, .. }));
    assert_eq!(s.pending(), 1);
    assert_eq!(s.next().unwrap().time, 20);
    assert!(s.next().is_none());
}

#[test]
fn identical_programs_produce_identical_orders() {
    // The property the whole simulator rests on.
    let run = || {
        let mut s = Scheduler::new();
        let mut order = vec![];
        for i in 0..100u64 {
            s.at(i % 7, app(0, i));
        }
        while let Some(f) = s.next() {
            order.push((f.time, arg_of(&f.event)));
        }
        order
    };
    assert_eq!(run(), run());
}
