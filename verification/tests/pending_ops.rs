//! Operations in flight.

use simkv::sim_io::storage::PendingOps;

#[test]
fn pending_ops_match_by_id() {
    let mut p: PendingOps<&str> = PendingOps::new();
    p.insert(1, "vote");
    p.insert(2, "append");
    p.insert(3, "commit");
    assert_eq!(p.take(2), Some("append"));
    assert_eq!(p.take(2), None, "an op completes at most once");
    assert_eq!(p.len(), 2);
    assert_eq!(p.take(1), Some("vote"));
    assert_eq!(p.take(3), Some("commit"));
    assert!(p.is_empty());
}

#[test]
fn overlapping_syncs_stay_distinguishable() {
    // Two syncs in flight at once must not be confused for each other.
    let mut p: PendingOps<u64> = PendingOps::new();
    p.insert(10, 100);
    p.insert(11, 200);
    assert_eq!(p.take(11), Some(200));
    assert_eq!(p.take(10), Some(100));
}

#[test]
fn clear_drops_everything() {
    let mut p: PendingOps<u8> = PendingOps::new();
    p.insert(1, 1);
    p.clear();
    assert!(p.is_empty());
    assert_eq!(p.take(1), None);
}
