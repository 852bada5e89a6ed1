//! Figures as they are shown.

use simkv::checker::Violation;
use simkv::figures::{put_ones, put_tenths, put_thousandths, rate_of, seconds_of, share_of};
use simkv::simcore::rng::Rng;
use std::time::Duration;

/// Numbers of every size, and those on either side of a rounding boundary.
fn numbers() -> Vec<u64> {
    let mut out = vec![0, 1, 499, 500, 501, 1_500, 2_500, 350_000_000, 250_000_000, u64::MAX];
    for shift in 0..64 {
        out.push(1 << shift);
        out.push((1 << shift) - 1);
        out.push((1 << shift) + 1);
        out.push((1 << shift) + (1 << shift >> 1));
    }
    for i in 0..400 {
        out.push(i * 50_000_000);
        out.push(i * 500);
        out.push(i * 50_000);
    }
    let mut rng = Rng::new(11);
    for i in 0..4000 {
        out.push(rng.next_u64() >> (i % 64));
    }
    out
}

#[test]
fn milliseconds_to_three_decimals() {
    for n in numbers() {
        let mut s = String::new();
        put_thousandths(&mut s, share_of(n, 1_000_000));
        assert_eq!(s, format!("{:.3}", n as f64 / 1_000_000 as f64), "{n}");
    }
}

#[test]
fn seconds_and_millions_to_one_decimal() {
    for n in numbers() {
        let mut s = String::new();
        put_tenths(&mut s, share_of(n, 1_000_000_000));
        assert_eq!(s, format!("{:.1}", n as f64 / 1_000_000_000 as f64), "{n}");
        let mut s = String::new();
        put_tenths(&mut s, share_of(n, 1_000_000));
        assert_eq!(s, format!("{:.1}", n as f64 / 1e6), "{n}");
    }
}

#[test]
fn elapsed_time_to_one_decimal() {
    for n in numbers() {
        let mut s = String::new();
        put_tenths(&mut s, seconds_of(n));
        let secs = Duration::from_nanos(n).as_secs_f64();
        assert_eq!(s, format!("{secs:.1}"), "{n}");
    }
}

#[test]
fn rates_without_decimals() {
    let all = numbers();
    for (i, n) in all.iter().enumerate() {
        for j in 0..5 {
            let nanos = all[(i * 7 + j * 1_003) % all.len()];
            let mut s = String::new();
            put_ones(&mut s, rate_of(*n, nanos));
            let secs = Duration::from_nanos(nanos).as_secs_f64().max(1e-9);
            assert_eq!(s, format!("{:.0}", *n as f64 / secs), "{n} in {nanos}");
        }
    }
}

#[test]
fn binary_digits_show_in_the_last_decimal() {
    let mut s = String::new();
    put_thousandths(&mut s, share_of(500, 1_000_000));
    assert_eq!(s, "0.001");
    let mut s = String::new();
    put_tenths(&mut s, share_of(350_000_000, 1_000_000_000));
    assert_eq!(s, "0.3");
    let mut s = String::new();
    put_tenths(&mut s, share_of(250_000_000, 1_000_000_000));
    assert_eq!(s, "0.2");
    let mut s = String::new();
    put_ones(&mut s, rate_of(u64::MAX, 0));
    assert_eq!(s, format!("{:.0}", u64::MAX as f64 / 1e-9));
    assert_eq!(
        Violation::new("x", 500, None, "y".into()).text(),
        "[0.001ms] x: y"
    );
}
