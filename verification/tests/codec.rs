//! Bytes on the wire.

use simkv::kvstore::codec::{crc32, frame, unframe, Dec, DecodeError, Enc};
use simkv::kvstore::{ClientMsg, Message, Op, RaftMsg};
use simkv::simcore::rng::Rng;
use simkv::simcore::NodeId;

#[test]
fn primitives_round_trip() {
    let mut e = Enc::new();
    e.u8(7).u32(0xdead_beef).u64(u64::MAX).str("hello");
    e.opt_str(None).opt_str(Some("x"));
    let v = e.into_vec();
    let mut d = Dec::new(&v);
    assert_eq!(d.u8().unwrap(), 7);
    assert_eq!(d.u32().unwrap(), 0xdead_beef);
    assert_eq!(d.u64().unwrap(), u64::MAX);
    assert_eq!(d.string().unwrap(), "hello");
    assert_eq!(d.opt_string().unwrap(), None);
    assert_eq!(d.opt_string().unwrap(), Some("x".into()));
    d.finish().unwrap();
}

#[test]
fn truncation_is_an_error_not_a_panic() {
    let mut e = Enc::new();
    e.u64(1).str("abcdef");
    let full = e.into_vec();
    for cut in 0..full.len() {
        let mut d = Dec::new(&full[..cut]);
        // Whatever it does, it must not panic and must not succeed fully.
        let ok = d.u64().is_ok() && d.string().is_ok();
        assert!(!ok || cut == full.len());
    }
}

#[test]
fn absurd_length_fields_are_rejected() {
    let mut e = Enc::new();
    e.u32(u32::MAX); // length prefix for a string that cannot exist
    let v = e.into_vec();
    assert_eq!(Dec::new(&v).string(), Err(DecodeError::TooLong));
}

#[test]
fn crc32_matches_known_vector() {
    assert_eq!(crc32(b"123456789"), 0xCBF4_3926);
    assert_eq!(crc32(b""), 0);
}

#[test]
fn framing_detects_corruption() {
    let framed = frame(b"important");
    assert_eq!(unframe(&framed).unwrap(), b"important");
    for i in 0..framed.len() {
        for bit in 0..8 {
            let mut bad = framed.clone();
            bad[i] ^= 1 << bit;
            assert_eq!(
                unframe(&bad).err(),
                Some(DecodeError::BadChecksum),
                "single-bit flip at byte {i} bit {bit} slipped through"
            );
        }
    }
}

#[test]
fn arbitrary_bytes_never_panic() {
    // The network flips bits; decode is the first thing that sees them.
    let mut rng = Rng::new(1);
    let template = Message::Raft(RaftMsg::RequestVote {
        term: 3,
        candidate: NodeId(1),
        last_index: 9,
        last_term: 2,
    })
    .encode();
    for _ in 0..20_000 {
        let mut bytes = template.clone();
        let flips = rng.range(1, 4);
        for _ in 0..flips {
            let i = rng.below(bytes.len() as u64) as usize;
            bytes[i] ^= 1 << rng.below(8);
        }
        let _ = Message::decode(&bytes);
    }
    for len in 0..40 {
        let mut bytes = vec![0u8; len];
        rng.fill(&mut bytes);
        let _ = Message::decode(&bytes);
    }
}

#[test]
fn message_round_trips() {
    let msgs = vec![
        Message::Raft(RaftMsg::RequestVote {
            term: 4,
            candidate: NodeId(2),
            last_index: 7,
            last_term: 3,
        }),
        Message::Client(ClientMsg::Request {
            req_id: 88,
            client: 3,
            seq: 12,
            op: Op::Put {
                key: "k".into(),
                value: "v".into(),
            },
        }),
    ];
    for m in msgs {
        assert_eq!(Message::decode(&m.encode()).unwrap(), m);
    }
}
