//! Every way of being wrong, and what is said about it.

use simkv::checker::linearizability::History;
use simkv::checker::operation::Operation;
use simkv::harness::args::{config, parse_number, sweep_config, Args};
use simkv::kvstore::bug::InjectedBug;
use simkv::kvstore::codec::{frame, unframe, Dec, DecodeError, Enc};
use simkv::kvstore::{Message, Op, Outcome};
use simkv::simcore::disk::{Disk, DiskConfig, IoResult};
use simkv::simcore::rng::Rng;
use simkv::simcore::MILLIS;

fn args(list: &[&str]) -> Args {
    Args::parse(&list.iter().map(|s| s.to_string()).collect::<Vec<_>>()).unwrap()
}

#[test]
fn each_decoding_error_has_an_input() {
    assert_eq!(Dec::new(&[1, 2]).u32(), Err(DecodeError::Truncated));
    assert_eq!(
        Message::decode(&frame(&[9])),
        Err(DecodeError::BadTag(9))
    );
    let mut e = Enc::new();
    e.bytes(&[0xff, 0xfe]);
    assert_eq!(Dec::new(&e.into_vec()).string(), Err(DecodeError::BadUtf8));
    let mut bad = frame(b"x");
    bad[0] ^= 1;
    assert_eq!(unframe(&bad), Err(DecodeError::BadChecksum));
    let mut e = Enc::new();
    e.u32(u32::MAX);
    assert_eq!(Dec::new(&e.into_vec()).bytes(), Err(DecodeError::TooLong));
    let mut d = Dec::new(&[1, 2]);
    assert_eq!(d.u8(), Ok(1));
    assert_eq!(d.remaining(), 1);
    assert_eq!(d.finish(), Err(DecodeError::TrailingBytes));
}

#[test]
fn decoding_errors_say_what_is_wrong() {
    assert_eq!(DecodeError::Truncated.text(), "truncated");
    assert_eq!(DecodeError::BadTag(9).text(), "unknown tag 9");
    assert_eq!(DecodeError::BadUtf8.text(), "invalid utf-8");
    assert_eq!(DecodeError::BadChecksum.text(), "checksum mismatch");
    assert_eq!(DecodeError::TooLong.text(), "length field out of range");
    assert_eq!(DecodeError::TrailingBytes.text(), "trailing bytes");
}

#[test]
fn text_of_every_script_survives_the_wire() {
    for s in ["", "plain", "héllo", "日本語", "🦀"] {
        let mut e = Enc::new();
        e.str(s);
        let v = e.into_vec();
        assert_eq!(Dec::new(&v).string(), Ok(s.to_string()));
    }
}

#[test]
fn a_stray_word_is_quoted_back() {
    let e = Args::parse(&["o\"ops".to_string()]).unwrap_err();
    assert_eq!(e, "unexpected argument \"o\\\"ops\"");
    let e = Args::parse(&["--seed".to_string(), "1".to_string(), "-x".to_string()]).unwrap_err();
    assert_eq!(e, "unexpected argument \"-x\"");
}

#[test]
fn numbers_may_be_grouped_and_signed() {
    assert_eq!(parse_number("0"), Some(0));
    assert_eq!(parse_number("1_000_000"), Some(1_000_000));
    assert_eq!(parse_number("+5"), Some(5));
    assert_eq!(parse_number("_+5_"), Some(5));
    assert_eq!(parse_number("007"), Some(7));
    assert_eq!(parse_number("18446744073709551615"), Some(u64::MAX));
    assert_eq!(parse_number("18446744073709551616"), None);
    assert_eq!(parse_number(""), None);
    assert_eq!(parse_number("+"), None);
    assert_eq!(parse_number("__"), None);
    assert_eq!(parse_number("-1"), None);
    assert_eq!(parse_number("5x"), None);
    assert_eq!(parse_number("++5"), None);
}

#[test]
fn options_that_are_no_numbers_are_refused() {
    let a = args(&["--seed", "many"]);
    let e = a.opt_u64("seed").unwrap_err();
    assert_eq!(e, "--seed expects a number, got \"many\"");
    assert_eq!(a.u64("seed", 1).unwrap_err(), e);
    assert_eq!(a.usize("seed", 1).unwrap_err(), e);
    assert_eq!(config(&a).unwrap_err(), e);
    assert_eq!(args(&[]).opt_u64("seed"), Ok(None));
}

#[test]
fn unknown_levels_and_defects_are_refused() {
    let a = args(&["--trace", "loud"]);
    let e = "--trace expects off|error|warn|info|debug, got \"loud\"";
    assert_eq!(a.level().unwrap_err(), e);
    assert_eq!(config(&a).unwrap_err(), e);
    let names: Vec<&str> = InjectedBug::ALL.iter().map(|b| b.name()).collect();
    assert_eq!(
        config(&args(&["--bug", "gremlins"])).unwrap_err(),
        format!(
            "unknown --bug \"gremlins\"; try one of: {}",
            names.join(", ")
        )
    );
    for b in InjectedBug::ALL {
        assert_eq!(InjectedBug::parse(b.name()), Some(b));
        assert_eq!(config(&args(&["--bug", b.name()])).unwrap().raft.bug, b);
    }
    assert_eq!(InjectedBug::parse("none"), Some(InjectedBug::Off));
}

#[test]
fn the_first_bad_option_is_the_one_reported() {
    let a = args(&["--bug", "gremlins", "--servers", "x", "--max-events", "y"]);
    assert!(config(&a).unwrap_err().contains("--servers"));
}

#[test]
fn options_reach_the_configuration() {
    let cfg = config(&args(&[
        "--servers=5",
        "--clients",
        "2",
        "--keys",
        "3",
        "--drain",
        "700",
        "--max-batch",
        "0",
        "--max-events",
        "1_000",
        "--check-durability-every",
        "0",
        "--quorum-loss",
        "--trace",
        "WARN",
    ]))
    .unwrap();
    assert_eq!((cfg.servers, cfg.clients, cfg.workload.keys), (5, 2, 3));
    assert_eq!(cfg.drain, 700 * MILLIS);
    assert_eq!(cfg.raft.max_batch, 1);
    assert_eq!(cfg.max_events, 1_000);
    assert_eq!(cfg.check_durability_every, 1);
    assert!(cfg.faults.allow_quorum_loss);
    assert!(!cfg.check_liveness);
    assert_eq!(cfg.trace_level, simkv::simcore::trace::Level::Warn);
    assert!(!config(&args(&["--no-liveness"])).unwrap().check_liveness);
    assert!(config(&args(&[])).unwrap().check_liveness);
}

#[test]
fn sweep_options_have_their_own_defaults() {
    let cfg = sweep_config(&args(&[]), 7).unwrap();
    assert_eq!((cfg.start_seed, cfg.count), (1, 200));
    assert_eq!((cfg.threads, cfg.stop_after), (7, 0));
    assert!(!cfg.verbose);
    let cfg = sweep_config(
        &args(&[
            "--from", "10", "--seeds", "3", "--threads", "2", "--stop-after", "1", "--verbose",
        ]),
        7,
    )
    .unwrap();
    assert_eq!((cfg.start_seed, cfg.count), (10, 3));
    assert_eq!((cfg.threads, cfg.stop_after), (2, 1));
    assert!(cfg.verbose);
    assert!(sweep_config(&args(&["--from", "x"]), 7).is_err());
    assert!(sweep_config(&args(&["--seed", "x"]), 7).is_err());
}

#[test]
fn a_later_option_wins_and_values_may_hold_equal_signs() {
    let a = args(&["--seed=1", "--seed", "2", "--out=a=b"]);
    assert_eq!(a.u64("seed", 0), Ok(2));
    assert_eq!(a.get("out"), Some("a=b"));
    assert_eq!(args(&["--benign"]).get("benign"), Some("true"));
}

#[test]
fn a_disk_that_fails_says_so() {
    let cfg = DiskConfig {
        io_error_ppm: 1_000_000,
        ..DiskConfig::default()
    };
    let mut d = Disk::new(cfg);
    let mut r = Rng::new(1);
    assert_eq!(d.sync(&mut r, 0).result, IoResult::Error);
    assert!(!IoResult::Error.is_ok());
    assert!(IoResult::Done.is_ok());
}

#[test]
fn a_history_answers_only_what_it_recorded() {
    let mut h = History::new();
    assert!(!h.complete(1, 5, Outcome::Written));
    h.push(Operation {
        id: 1,
        client: 0,
        op: Op::Put {
            key: "k".to_string(),
            value: "v".to_string(),
        },
        invoked: 3,
        completed: None,
        outcome: None,
    });
    assert_eq!((h.pending(), h.completed()), (1, 0));
    assert!(h.complete(1, 5, Outcome::Written));
    assert_eq!((h.pending(), h.completed()), (0, 1));
    assert_eq!(h.operations()[0].completed, Some(5));
    assert!(h.well_formed().is_ok());
}
