//! The driver.

use simkv::harness::cluster::node_seed;
use simkv::simcore::NodeId;

#[test]
fn node_seeds_are_distinct_per_node_and_incarnation() {
    let a = node_seed(1, NodeId(0), 0);
    let b = node_seed(1, NodeId(1), 0);
    let c = node_seed(1, NodeId(0), 1);
    assert_ne!(a, b);
    assert_ne!(a, c);
    assert_ne!(b, c);
    // Deterministic, though.
    assert_eq!(a, node_seed(1, NodeId(0), 0));
}
