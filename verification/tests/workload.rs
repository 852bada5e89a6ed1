//! Clients.

use simkv::harness::workload::{Client, WorkloadConfig};
use simkv::kvstore::{Op, Outcome};
use simkv::simcore::NodeId;

fn cfg() -> WorkloadConfig {
    WorkloadConfig::default()
}

fn client(seed: u64) -> Client {
    Client::new(
        0,
        NodeId(3),
        vec![NodeId(0), NodeId(1), NodeId(2)],
        seed,
        cfg(),
    )
}

#[test]
fn operations_cover_the_configured_mix() {
    let mut c = client(1);
    let mut reads = 0;
    let mut writes = 0;
    let mut cas = 0;
    let mut dels = 0;
    for _ in 0..4000 {
        match c.pick_op() {
            Op::Get { .. } => reads += 1,
            Op::Put { .. } => writes += 1,
            Op::Cas { .. } => cas += 1,
            Op::Delete { .. } => dels += 1,
            Op::Noop => panic!("clients never issue noops"),
        }
    }
    assert!(reads > 1200 && reads < 2000, "reads = {reads}");
    assert!(writes > 1200 && writes < 2000, "writes = {writes}");
    assert!(cas > 400 && cas < 800, "cas = {cas}");
    assert!(dels > 100 && dels < 350, "deletes = {dels}");
}

#[test]
fn keys_stay_within_the_configured_space() {
    let mut c = client(2);
    for _ in 0..1000 {
        let op = c.pick_op();
        let key = op.key().unwrap();
        let n: usize = key.trim_start_matches('k').parse().unwrap();
        assert!(n < cfg().keys);
    }
}

#[test]
fn cas_uses_the_last_known_value() {
    let mut c = client(3);
    c.remember(
        &Op::Put {
            key: "k1".into(),
            value: "v".into(),
        },
        &Outcome::Written,
    );
    assert_eq!(c.known.get("k1"), Some(&Some("v".to_string())));
    // A failed cas forgets, so the next attempt does not repeat a guess we
    // already know to be wrong.
    c.remember(
        &Op::Cas {
            key: "k1".into(),
            expect: Some("v".into()),
            value: "w".into(),
        },
        &Outcome::Cas(false),
    );
    assert_eq!(c.known.get("k1"), None);
}

#[test]
fn a_successful_cas_updates_the_known_value() {
    let mut c = client(4);
    c.remember(
        &Op::Cas {
            key: "k".into(),
            expect: None,
            value: "new".into(),
        },
        &Outcome::Cas(true),
    );
    assert_eq!(c.known.get("k"), Some(&Some("new".to_string())));
}

#[test]
fn a_delete_is_remembered_as_absent() {
    let mut c = client(5);
    c.remember(&Op::Delete { key: "k".into() }, &Outcome::Written);
    assert_eq!(c.known.get("k"), Some(&None));
}

#[test]
fn rotate_target_always_moves() {
    let mut c = client(6);
    for _ in 0..200 {
        let before = c.target;
        c.rotate_target();
        assert_ne!(c.target, before);
        assert!(c.target < 3);
    }
}

#[test]
fn a_single_server_target_cannot_rotate() {
    let mut c = Client::new(0, NodeId(1), vec![NodeId(0)], 1, cfg());
    c.rotate_target();
    assert_eq!(c.target, 0);
}
