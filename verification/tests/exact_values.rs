//! Exact values: what each formula gives on an input worked out by hand.

use simkv::bytes::{get_u32, get_u64, less_bytes, put_u32, put_u64};
use simkv::checker::operation::{op_text, outcome_text, step, Operation};
use simkv::checker::{Report, Violation};
use simkv::count::{add_capped, count_up, mul_capped, round_even};
use simkv::kvstore::{Op, Outcome};
use simkv::simcore::faults::ClockSkew;
use simkv::simcore::rng::Rng;
use simkv::simcore::trace::{Fingerprint, Level, Trace};
use simkv::simcore::NodeId;
use simkv::sort::{sort_items, Key};
use simkv::text::{decimal_str, hex_str, join_str, less_str, pad_left_str, pad_right_str, quoted_opt_str};

#[test]
fn the_stream_of_a_seed_is_the_published_one() {
    let mut r = Rng::new(42);
    assert_eq!(r.next_u64(), 0xd076_4d4f_4476_689f);
    assert_eq!(r.next_u64(), 0x519e_4174_576f_3791);
    assert_eq!(r.next_u64(), 0xfbe0_7cfb_0c24_ed8c);
    let mut z = Rng::new(0);
    assert_eq!(z.next_u64(), 0x5317_5d61_490b_23df);
    assert_eq!(Rng::new(42).next_u32(), 0xd076_4d4f);
}

#[test]
fn scaling_takes_the_high_half_of_the_product() {
    assert_eq!(Rng::new(42).below(10), 8);
    assert_eq!(Rng::new(42).range(100, 109), 108);
    assert_eq!(Rng::new(42).index(10), Some(8));
    assert_eq!(Rng::new(42).index(0), None);
    let items = ["a", "b", "c", "d", "e", "f", "g", "h", "i", "j"];
    assert_eq!(Rng::new(42).pick(&items), Some(&"i"));
    let nothing: [u8; 0] = [];
    assert_eq!(Rng::new(42).pick(&nothing), None);
}

#[test]
fn filling_uses_the_stream_byte_by_byte() {
    let mut buf = vec![0u8; 11];
    Rng::new(42).fill(&mut buf);
    let mut r = Rng::new(42);
    let mut expected = r.next_u64().to_le_bytes().to_vec();
    expected.extend_from_slice(&r.next_u64().to_le_bytes()[..3]);
    assert_eq!(buf, expected);
}

#[test]
fn a_fork_is_seeded_from_its_parent_and_label() {
    let mut parent = Rng::new(5);
    let mut child = parent.fork(3);
    let first = Rng::new(5).next_u64();
    let mut expected = Rng::new(first ^ 3u64.wrapping_mul(0xD6E8_FEB8_6659_FD93));
    assert_eq!(child.next_u64(), expected.next_u64());
}

#[test]
fn fingerprints_are_fnv_1a() {
    let mut f = Fingerprint::new();
    assert_eq!(f.0, 0xcbf2_9ce4_8422_2325);
    f.feed_bytes(b"a");
    assert_eq!(f.0, 0xaf63_dc4c_8601_ec8c);
    assert_eq!(f.text(), "af63dc4c8601ec8c");
    let mut t = Trace::new(Level::Off);
    t.observe(7, Some(NodeId(2)), "x", &[9]);
    assert_eq!(t.fingerprint(), Fingerprint(0x9d86_af4a_e373_0fe1));
    assert_eq!(t.observed_count(), 1);
}

#[test]
fn little_endian_numbers_round_trip() {
    let mut v = Vec::new();
    put_u32(&mut v, 0x0403_0201);
    put_u64(&mut v, 0x0c0b_0a09_0807_0605);
    assert_eq!(v, (1..=12).collect::<Vec<u8>>());
    assert_eq!(get_u32(&v, 0), 0x0403_0201);
    assert_eq!(get_u64(&v, 4), 0x0c0b_0a09_0807_0605);
    assert!(less_bytes(b"ab", b"abc"));
    assert!(less_bytes(b"ab", b"b"));
    assert!(!less_bytes(b"b", b"ab"));
}

#[test]
fn numbers_and_columns_are_laid_out_as_usual() {
    assert_eq!(decimal_str(0), "0");
    assert_eq!(decimal_str(u64::MAX), u64::MAX.to_string());
    assert_eq!(hex_str(0xabc, 6), "000abc");
    assert_eq!(pad_left_str("7", 4), "   7");
    assert_eq!(pad_left_str("12345", 4), "12345");
    assert_eq!(pad_right_str("ab", 4), "ab  ");
    assert_eq!(
        join_str(&vec!["a".to_string(), "b".to_string(), "c".to_string()], ", "),
        "a, b, c"
    );
    assert_eq!(join_str(&vec![], ", "), "");
    assert!(less_str("k1", "k10"));
    assert!(less_str("a", "é"));
}

#[test]
fn strings_are_quoted_as_debug_output() {
    assert_eq!(quoted_opt_str(&None), "None");
    for s in ["plain", "a\"b", "tab\there", "line\nbreak", "back\\slash", "é"] {
        assert_eq!(
            quoted_opt_str(&Some(s.to_string())),
            format!("{:?}", Some(s.to_string()))
        );
    }
}

#[test]
fn counters_stop_at_the_largest_number() {
    assert_eq!(count_up(u64::MAX), u64::MAX);
    assert_eq!(count_up(4), 5);
    assert_eq!(add_capped(u64::MAX, 3), u64::MAX);
    assert_eq!(add_capped(2, 3), 5);
    assert_eq!(mul_capped(1 << 40, 1 << 40), u64::MAX);
    assert_eq!(mul_capped(6, 7), 42);
    assert_eq!((round_even(25, 10), round_even(35, 10)), (2, 4));
    assert_eq!((round_even(24, 10), round_even(26, 10)), (2, 3));
}

#[test]
fn sorting_is_stable() {
    let key = |first: u64, second: u64| Key {
        first,
        second,
        third: 0,
    };
    let keys = vec![key(2, 0), key(1, 5), key(2, 0), key(1, 4)];
    assert_eq!(sort_items(&keys), vec![3, 1, 0, 2]);
}

#[test]
fn violations_name_time_place_and_kind() {
    let v = Violation::new("log_matching", 1_234_567, Some(NodeId(2)), "two".to_string());
    assert_eq!(v.text(), "[1.235ms n2] log_matching: two");
    let w = Violation::new("linearizability", 400, None, "x".to_string());
    assert_eq!(w.text(), "[0.000ms] linearizability: x");
    let mut r = Report::new();
    r.extend(vec![v, w]);
    assert_eq!(
        r.render(),
        "[1.235ms n2] log_matching: two\n[0.000ms] linearizability: x\n"
    );
}

#[test]
fn operations_are_shown_on_one_line() {
    let done = Operation {
        id: 9,
        client: 3,
        op: Op::Put {
            key: "k".to_string(),
            value: "v".to_string(),
        },
        invoked: 10,
        completed: Some(25),
        outcome: Some(Outcome::Written),
    };
    assert_eq!(
        done.render(),
        format!("c3 #9 {} [10..] => Written at 25", op_text(&done.op))
    );
    let open = Operation {
        completed: None,
        outcome: None,
        ..done
    };
    assert!(open.render().ends_with("=> <no answer>"));
    assert!(open.is_pending());
    assert_eq!(open.end(), u64::MAX);
    assert_eq!(
        outcome_text(&Outcome::NotLeader(Some(NodeId(4)))),
        format!("{:?}", Outcome::NotLeader(Some(NodeId(4))))
    );
    assert_eq!(
        outcome_text(&Outcome::Value(Some("a\"b".to_string()))),
        format!("{:?}", Outcome::Value(Some("a\"b".to_string())))
    );
}

#[test]
fn the_model_of_one_key_steps_as_a_register() {
    let at = |op: Op, outcome: Outcome| Operation {
        id: 1,
        client: 0,
        op,
        invoked: 0,
        completed: Some(1),
        outcome: Some(outcome),
    };
    let k = || "k".to_string();
    let get = at(Op::Get { key: k() }, Outcome::Value(None));
    assert_eq!(step(&None, &get), (true, None));
    assert!(!step(&Some("x".to_string()), &get).0);
    let cas = at(
        Op::Cas {
            key: k(),
            expect: Some("x".to_string()),
            value: "y".to_string(),
        },
        Outcome::Cas(true),
    );
    assert_eq!(
        step(&Some("x".to_string()), &cas),
        (true, Some("y".to_string()))
    );
    assert!(!step(&None, &cas).0);
}

#[test]
fn clocks_drift_and_never_show_less_than_zero() {
    let fast = ClockSkew {
        offset: 500,
        drift_ppm: 100,
    };
    assert_eq!(fast.apply(1_000_000), 1_000_600);
    let slow = ClockSkew {
        offset: 0,
        drift_ppm: -100,
    };
    assert_eq!(slow.apply(1_000_000), 999_900);
}
