use shivya_core::dht::{Blocklist, ValueStore};
use shivya_core::node::{
    encode_frame, eviction_due, on_frame, unblocked_peers, prepare_send, prepare_store, reply_with_closest, ClosestQuery,
    InboundAction,
};
use shivya_core::protocol::{
    DhtKey, Frame, FramePayload, NodeId, PeerAddress, PeerInfo, MAX_VALUE_BYTES,
};

const ME: NodeId = NodeId([0xEEu8; 20]);
const OTHER: NodeId = NodeId([0x01u8; 20]);

fn addr(last: u8, port: u16) -> PeerAddress {
    PeerAddress::V4 { ip: [127, 0, 0, last], port }
}

#[test]
fn value_store_read_gives_back_last_write() {
    let mut s = ValueStore::new();
    let k1 = DhtKey([1u8; 20]);
    let k2 = DhtKey([2u8; 20]);
    assert_eq!(s.get(&k1), None);
    s.insert(k1, vec![1, 2, 3]);
    s.insert(k2, vec![9]);
    assert_eq!(s.get(&k1), Some(vec![1, 2, 3]));
    s.insert(k1, vec![4]);
    assert_eq!(s.get(&k1), Some(vec![4]));
    assert_eq!(s.get(&k2), Some(vec![9]));
    assert_eq!(s.len(), 2);
}

#[test]
fn blocklist_block_and_heal() {
    let mut b = Blocklist::new();
    let a = addr(1, 18500);
    let c = addr(2, 18501);
    assert!(!b.is_blocked(&a));
    b.block(a);
    b.block(a);
    b.block(c);
    assert!(b.is_blocked(&a));
    assert!(b.is_blocked(&c));
    b.unblock(&a);
    assert!(!b.is_blocked(&a));
    assert!(b.is_blocked(&c));
    b.unblock(&c);
    assert!(!b.is_blocked(&c));
    // a V6 address is a different address even with the same port
    b.block(PeerAddress::V6 { ip: [0u8; 16], port: 18501, flowinfo: 0, scope_id: 0 });
    assert!(!b.is_blocked(&c));
    // IPv6 addresses that differ only in their scope id are kept apart
    let scoped = PeerAddress::V6 { ip: [0u8; 16], port: 18501, flowinfo: 0, scope_id: 3 };
    assert!(!b.is_blocked(&scoped));
    b.block(scoped);
    b.unblock(&PeerAddress::V6 { ip: [0u8; 16], port: 18501, flowinfo: 0, scope_id: 0 });
    assert!(b.is_blocked(&scoped));
    let flowed = PeerAddress::V6 { ip: [0u8; 16], port: 18501, flowinfo: 9, scope_id: 3 };
    assert!(!b.is_blocked(&flowed));
}

#[test]
fn own_frames_are_ignored() {
    let mut s = ValueStore::new();
    let f = Frame { sender: ME, payload: FramePayload::Ping { timestamp: 5 } };
    assert_eq!(on_frame(&ME, f, 0, &mut s), InboundAction::Ignore);
}

#[test]
fn ping_is_answered_with_pong_of_same_timestamp() {
    let mut s = ValueStore::new();
    let f = Frame { sender: OTHER, payload: FramePayload::Ping { timestamp: 77 } };
    assert_eq!(
        on_frame(&ME, f, 0, &mut s),
        InboundAction::Reply { frame: Frame { sender: ME, payload: FramePayload::Pong { timestamp: 77 } } }
    );
    let pong = Frame { sender: OTHER, payload: FramePayload::Pong { timestamp: 1 } };
    assert_eq!(on_frame(&ME, pong, 0, &mut s), InboundAction::Done);
}

#[test]
fn store_then_find_value_serves_the_value() {
    let mut s = ValueStore::new();
    let key = DhtKey([0x42u8; 20]);
    let value = b"hello shivya".to_vec();
    let store = Frame {
        sender: OTHER,
        payload: FramePayload::Store { key, value_len: value.len() as u16, value: value.clone() },
    };
    assert_eq!(on_frame(&ME, store, 0, &mut s), InboundAction::Done);
    let query = Frame { sender: OTHER, payload: FramePayload::FindValue { key } };
    assert_eq!(
        on_frame(&ME, query, 0, &mut s),
        InboundAction::Reply {
            frame: Frame {
                sender: ME,
                payload: FramePayload::FoundValue { key, value: Some(value), peers: vec![] },
            }
        }
    );
    let miss = Frame { sender: OTHER, payload: FramePayload::FindValue { key: DhtKey([7u8; 20]) } };
    assert_eq!(
        on_frame(&ME, miss, 0, &mut s),
        InboundAction::ReplyClosest { query: ClosestQuery::Value { key: DhtKey([7u8; 20]) } }
    );
}

#[test]
fn oversized_store_is_dropped() {
    let mut s = ValueStore::new();
    let key = DhtKey([3u8; 20]);
    let big = vec![0u8; MAX_VALUE_BYTES + 1];
    let f = Frame {
        sender: OTHER,
        payload: FramePayload::Store { key, value_len: big.len() as u16, value: big },
    };
    assert_eq!(on_frame(&ME, f, 0, &mut s), InboundAction::Done);
    assert_eq!(s.get(&key), None);
}

#[test]
fn found_nodes_learns_other_peers_and_pings_them() {
    let mut s = ValueStore::new();
    let p1 = PeerInfo { id: NodeId([5u8; 20]), address: addr(5, 9005) };
    let me = PeerInfo { id: ME, address: addr(9, 9009) };
    let p2 = PeerInfo { id: NodeId([6u8; 20]), address: addr(6, 9006) };
    let f = Frame { sender: OTHER, payload: FramePayload::FoundNodes { peers: vec![p1, me, p2] } };
    assert_eq!(
        on_frame(&ME, f, 1234, &mut s),
        InboundAction::LearnPeers {
            peers: vec![p1, p2],
            ping: Frame { sender: ME, payload: FramePayload::Ping { timestamp: 1234 } },
        }
    );
}

#[test]
fn found_value_caches_or_continues_search() {
    let mut s = ValueStore::new();
    let key = DhtKey([8u8; 20]);
    let p1 = PeerInfo { id: NodeId([5u8; 20]), address: addr(5, 9005) };
    let me = PeerInfo { id: ME, address: addr(9, 9009) };
    let miss = Frame {
        sender: OTHER,
        payload: FramePayload::FoundValue { key, value: None, peers: vec![me, p1] },
    };
    assert_eq!(
        on_frame(&ME, miss, 0, &mut s),
        InboundAction::AskPeers {
            peers: vec![p1],
            request: Frame { sender: ME, payload: FramePayload::FindValue { key } },
        }
    );
    let hit = Frame {
        sender: OTHER,
        payload: FramePayload::FoundValue { key, value: Some(vec![1, 2]), peers: vec![] },
    };
    assert_eq!(on_frame(&ME, hit, 0, &mut s), InboundAction::Done);
    assert_eq!(s.get(&key), Some(vec![1, 2]));
}

#[test]
fn thermodynamic_frames_are_forwarded() {
    let mut s = ValueStore::new();
    let f = Frame {
        sender: OTHER,
        payload: FramePayload::ThermodynamicPush {
            free_energy_bits: 2.5f64.to_bits(),
            pressure_bits: 0.5f64.to_bits(),
        },
    };
    assert_eq!(on_frame(&ME, f.clone(), 0, &mut s), InboundAction::Forward { frame: f });
    let g = Frame {
        sender: OTHER,
        payload: FramePayload::GradientDiff {
            target_id: NodeId([3u8; 20]),
            coefficient_bits: 1.0f64.to_bits(),
            flow_bits: (-1.0f64).to_bits(),
        },
    };
    assert_eq!(on_frame(&ME, g.clone(), 0, &mut s), InboundAction::Forward { frame: g });
    let fnode = Frame { sender: OTHER, payload: FramePayload::FindNode { target: NodeId([4u8; 20]) } };
    assert_eq!(
        on_frame(&ME, fnode, 0, &mut s),
        InboundAction::ReplyClosest { query: ClosestQuery::Nodes { target: NodeId([4u8; 20]) } }
    );
}

#[test]
fn closest_replies() {
    let p1 = PeerInfo { id: NodeId([5u8; 20]), address: addr(5, 9005) };
    let q = ClosestQuery::Nodes { target: NodeId([4u8; 20]) };
    assert_eq!(q.lookup_target(), NodeId([4u8; 20]));
    assert_eq!(
        reply_with_closest(&ME, &q, vec![p1]),
        Frame { sender: ME, payload: FramePayload::FoundNodes { peers: vec![p1] } }
    );
    let key = DhtKey([6u8; 20]);
    let q = ClosestQuery::Value { key };
    assert_eq!(q.lookup_target(), NodeId([6u8; 20]));
    assert_eq!(
        reply_with_closest(&ME, &q, vec![p1]),
        Frame { sender: ME, payload: FramePayload::FoundValue { key, value: None, peers: vec![p1] } }
    );
}

#[test]
fn send_is_dropped_while_blocked() {
    let mut b = Blocklist::new();
    let a = addr(3, 18503);
    let f = Frame { sender: ME, payload: FramePayload::Ping { timestamp: 9 } };
    b.block(a);
    assert_eq!(prepare_send(&b, &f, &a), Ok(None));
    b.unblock(&a);
    let bytes = prepare_send(&b, &f, &a).unwrap().unwrap();
    assert_eq!(bytes.len(), 33);
    assert_eq!(Frame::parse(&bytes).unwrap(), f);
    let bad = Frame {
        sender: ME,
        payload: FramePayload::Store { key: DhtKey([0u8; 20]), value_len: 5, value: vec![1] },
    };
    assert_eq!(prepare_send(&b, &bad, &a), Err("Store value_len mismatch"));
}

#[test]
fn encode_frame_respects_capacity() {
    let peers: Vec<PeerInfo> =
        (0..8u8).map(|i| PeerInfo { id: NodeId([i; 20]), address: addr(i, 100) }).collect();
    let f = Frame { sender: ME, payload: FramePayload::FoundNodes { peers } };
    assert_eq!(encode_frame(&f, 100), Err("Buffer too small for peer record"));
    let bytes = encode_frame(&f, 1024).unwrap();
    assert_eq!(bytes.len(), 26 + 27 * 8);
    assert_eq!(Frame::parse(&bytes).unwrap(), f);
}

#[test]
fn prepare_store_caches_and_builds_frame() {
    let mut s = ValueStore::new();
    let key = DhtKey([0x11u8; 20]);
    let f = prepare_store(&ME, key, vec![1, 2, 3], &mut s).unwrap();
    assert_eq!(
        f,
        Frame { sender: ME, payload: FramePayload::Store { key, value_len: 3, value: vec![1, 2, 3] } }
    );
    assert_eq!(s.get(&key), Some(vec![1, 2, 3]));
    let other = DhtKey([0x12u8; 20]);
    assert_eq!(prepare_store(&ME, other, vec![0u8; MAX_VALUE_BYTES + 1], &mut s), None);
    assert_eq!(s.get(&other), None);
}

#[test]
fn unblocked_peers_skips_partitioned_addresses() {
    let mut b = Blocklist::new();
    let p1 = PeerInfo { id: NodeId([5u8; 20]), address: addr(5, 9005) };
    let p2 = PeerInfo { id: NodeId([6u8; 20]), address: addr(6, 9006) };
    let p3 = PeerInfo { id: NodeId([7u8; 20]), address: addr(7, 9007) };
    b.block(addr(6, 9006));
    assert_eq!(unblocked_peers(&b, &vec![p1, p2, p3]), vec![p1, p3]);
    b.unblock(&addr(6, 9006));
    assert_eq!(unblocked_peers(&b, &vec![p1, p2, p3]), vec![p1, p2, p3]);
}

#[test]
fn eviction_goes_ahead_only_if_oldest_is_still_first() {
    let oldest = PeerInfo { id: NodeId([5u8; 20]), address: addr(5, 9005) };
    let other = PeerInfo { id: NodeId([6u8; 20]), address: addr(6, 9006) };
    assert!(eviction_due(Some(oldest), &oldest));
    assert!(!eviction_due(Some(other), &oldest));
    assert!(!eviction_due(None, &oldest));
    let moved = PeerInfo { id: NodeId([5u8; 20]), address: addr(5, 9999) };
    assert!(!eviction_due(Some(moved), &oldest));
}
