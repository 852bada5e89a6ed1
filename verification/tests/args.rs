//! Command lines.

use simkv::harness::args::{config, Args};
use simkv::simcore::trace::Level;
use simkv::simcore::MILLIS;

fn args(list: &[&str]) -> Args {
    Args::parse(&list.iter().map(|s| s.to_string()).collect::<Vec<_>>()).unwrap()
}

#[test]
fn parses_values_and_booleans() {
    let a = args(&["--seed", "42", "--benign", "--threads=8"]);
    assert_eq!(a.u64("seed", 0), Ok(42));
    assert!(a.has("benign"));
    assert_eq!(a.usize("threads", 1), Ok(8));
    assert!(!a.has("verbose"));
    assert_eq!(a.u64("missing", 7), Ok(7));
}

#[test]
fn a_trailing_boolean_flag_is_not_eaten_by_the_next_flag() {
    let a = args(&["--verbose", "--seeds", "10"]);
    assert!(a.has("verbose"));
    assert_eq!(a.u64("seeds", 0), Ok(10));
}

#[test]
fn stray_positional_arguments_are_rejected() {
    let e = Args::parse(&["oops".to_string()]).unwrap_err();
    assert!(e.contains("oops"));
}

#[test]
fn durations_are_read_in_milliseconds() {
    let cfg = config(&args(&["--duration", "1500", "--settle", "2000"])).unwrap();
    assert_eq!(cfg.duration, 1500 * MILLIS);
    assert_eq!(cfg.settle, 2000 * MILLIS);
    // The fault window always tracks the run length.
    assert_eq!(cfg.faults.window.1, cfg.duration);
}

#[test]
fn benign_disables_every_fault() {
    let cfg = config(&args(&["--benign", "--seed", "3"])).unwrap();
    assert!(!cfg.faults.any_enabled());
    assert_eq!(cfg.net.drop_ppm, 0);
    assert_eq!(cfg.disk.torn_write_ppm, 0);
    assert_eq!(cfg.seed, 3);
}

#[test]
fn trace_levels_parse() {
    assert_eq!(args(&["--trace", "debug"]).level(), Ok(Some(Level::Debug)));
    assert_eq!(args(&[]).level(), Ok(None));
}
