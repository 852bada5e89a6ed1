//! Peers and quorums.

use simkv::sim_io::effect::{Environment, IoState};
use simkv::sim_io::network::{peers, quorum, Net};
use simkv::simcore::world::WorldView;
use simkv::simcore::NodeId;

struct FakeNet {
    me: NodeId,
    n: usize,
    sent: Vec<(NodeId, Vec<u8>)>,
}

// Only proofs look at these; nothing here runs them.
impl Environment for FakeNet {
    fn state(&self) -> IoState {
        unreachable!()
    }
    fn origin(&self) -> (WorldView, NodeId) {
        unreachable!()
    }
    fn valid(&self) -> bool {
        unreachable!()
    }
}

impl Net for FakeNet {
    fn me(&self) -> NodeId {
        self.me
    }
    fn cluster_size(&self) -> usize {
        self.n
    }
    fn send(&mut self, to: NodeId, payload: &[u8]) {
        if to != self.me {
            self.sent.push((to, payload.to_vec()));
        }
    }
}

#[test]
fn peers_excludes_self_and_is_ordered() {
    let net = FakeNet {
        me: NodeId(2),
        n: 5,
        sent: vec![],
    };
    assert_eq!(
        peers(&net),
        vec![NodeId(0), NodeId(1), NodeId(3), NodeId(4)]
    );
}

#[test]
fn quorum_is_a_strict_majority() {
    assert_eq!(quorum(1), 1);
    assert_eq!(quorum(2), 2);
    assert_eq!(quorum(3), 2);
    assert_eq!(quorum(4), 3);
    assert_eq!(quorum(5), 3);
    // Any two quorums of the same cluster must intersect.
    for n in 1..40 {
        assert!(2 * quorum(n) > n, "quorums of {n} would not intersect");
    }
}

#[test]
fn sending_to_self_is_dropped() {
    let mut net = FakeNet {
        me: NodeId(0),
        n: 3,
        sent: vec![],
    };
    net.send(NodeId(0), b"loopback");
    net.send(NodeId(1), b"real");
    assert_eq!(net.sent.len(), 1);
}
