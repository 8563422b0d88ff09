use shivya_core::protocol::{
    DhtKey, Frame, FramePayload, NodeId, PeerAddress, PeerInfo, MAX_NODES_PER_FRAME,
    MAX_VALUE_BYTES,
};

fn v4(a: u8, b: u8, c: u8, d: u8, port: u16) -> PeerAddress {
    PeerAddress::V4 { ip: [a, b, c, d], port }
}

#[test]
fn test_ping_pong_serialization() {
    let sender = NodeId([7u8; 20]);
    let frame = Frame { sender, payload: FramePayload::Ping { timestamp: 123456789 } };
    let mut buf = [0u8; 100];
    let size = frame.serialize(&mut buf).unwrap();
    assert_eq!(size, 33);
    let parsed = Frame::parse(&buf[..size]).unwrap();
    assert_eq!(parsed, frame);
}

#[test]
fn test_thermodynamic_push_serialization() {
    let sender = NodeId([9u8; 20]);
    let frame = Frame {
        sender,
        payload: FramePayload::ThermodynamicPush {
            free_energy_bits: (-12.3456f64).to_bits(),
            pressure_bits: 1.5f64.to_bits(),
        },
    };
    let mut buf = [0u8; 100];
    let size = frame.serialize(&mut buf).unwrap();
    assert_eq!(size, 41);
    let parsed = Frame::parse(&buf[..size]).unwrap();
    assert_eq!(parsed, frame);
}

#[test]
fn test_find_node_roundtrip() {
    let sender = NodeId([1u8; 20]);
    let target = NodeId([0xAAu8; 20]);
    let frame = Frame { sender, payload: FramePayload::FindNode { target } };
    let mut buf = [0u8; 200];
    let size = frame.serialize(&mut buf).unwrap();
    let parsed = Frame::parse(&buf[..size]).unwrap();
    assert_eq!(parsed, frame);
}

#[test]
fn test_found_nodes_roundtrip() {
    let sender = NodeId([2u8; 20]);
    let peers = vec![
        PeerInfo { id: NodeId([3u8; 20]), address: v4(127, 0, 0, 1, 9000) },
        PeerInfo { id: NodeId([4u8; 20]), address: v4(10, 0, 0, 2, 31415) },
    ];
    let frame = Frame { sender, payload: FramePayload::FoundNodes { peers: peers.clone() } };
    let mut buf = [0u8; 500];
    let size = frame.serialize(&mut buf).unwrap();
    let parsed = Frame::parse(&buf[..size]).unwrap();
    assert_eq!(parsed, frame);
}

#[test]
fn test_store_and_find_value_roundtrip() {
    let sender = NodeId([5u8; 20]);
    let key = DhtKey([0x42u8; 20]);
    let payload = b"hello shivya".to_vec();
    let store = Frame {
        sender,
        payload: FramePayload::Store {
            key,
            value_len: payload.len() as u16,
            value: payload.clone(),
        },
    };
    let mut buf = [0u8; 500];
    let size = store.serialize(&mut buf).unwrap();
    let parsed = Frame::parse(&buf[..size]).unwrap();
    assert_eq!(parsed, store);

    let found = Frame {
        sender,
        payload: FramePayload::FoundValue { key, value: Some(payload), peers: Vec::new() },
    };
    let size = found.serialize(&mut buf).unwrap();
    let parsed = Frame::parse(&buf[..size]).unwrap();
    assert_eq!(parsed, found);
}

#[test]
fn ping_encoding_bytes_are_exact() {
    let frame = Frame {
        sender: NodeId([0x11u8; 20]),
        payload: FramePayload::Ping { timestamp: 0x0102_0304_0506_0708 },
    };
    let mut buf = [0xEEu8; 40];
    let size = frame.serialize(&mut buf).unwrap();
    assert_eq!(size, 33);
    assert_eq!(&buf[0..4], b"SHVY");
    assert_eq!(buf[4], 0x01);
    assert_eq!(&buf[5..25], &[0x11u8; 20]);
    assert_eq!(&buf[25..33], &[1, 2, 3, 4, 5, 6, 7, 8]);
    // bytes past the frame are untouched
    assert_eq!(&buf[33..], &[0xEEu8; 7]);
}

#[test]
fn gradient_diff_and_find_value_roundtrip() {
    let sender = NodeId([6u8; 20]);
    let frames = vec![
        Frame {
            sender,
            payload: FramePayload::GradientDiff {
                target_id: NodeId([0x33u8; 20]),
                coefficient_bits: 0.25f64.to_bits(),
                flow_bits: (-3.5f64).to_bits(),
            },
        },
        Frame { sender, payload: FramePayload::FindValue { key: DhtKey([9u8; 20]) } },
        Frame { sender, payload: FramePayload::Pong { timestamp: u64::MAX } },
    ];
    let expected_sizes = [61usize, 45, 33];
    for (frame, expected) in frames.iter().zip(expected_sizes.iter()) {
        let mut buf = [0u8; 128];
        let size = frame.serialize(&mut buf).unwrap();
        assert_eq!(size, *expected);
        assert_eq!(Frame::parse(&buf[..size]).unwrap(), *frame);
    }
}

#[test]
fn found_value_with_peers_and_no_value_roundtrip() {
    let sender = NodeId([8u8; 20]);
    let peers: Vec<PeerInfo> = (0..MAX_NODES_PER_FRAME as u8)
        .map(|i| PeerInfo { id: NodeId([i; 20]), address: v4(192, 168, 0, i, 4000 + i as u16) })
        .collect();
    let frame = Frame {
        sender,
        payload: FramePayload::FoundValue { key: DhtKey([1u8; 20]), value: None, peers },
    };
    let mut buf = [0u8; 1024];
    let size = frame.serialize(&mut buf).unwrap();
    assert_eq!(size, 49 + 27 * MAX_NODES_PER_FRAME);
    assert_eq!(Frame::parse(&buf[..size]).unwrap(), frame);
}

#[test]
fn parse_ignores_trailing_bytes() {
    let frame = Frame { sender: NodeId([4u8; 20]), payload: FramePayload::FindNode { target: NodeId([5u8; 20]) } };
    let mut buf = [0xABu8; 80];
    let size = frame.serialize(&mut buf).unwrap();
    assert_eq!(size, 45);
    assert_eq!(Frame::parse(&buf).unwrap(), frame);
}

#[test]
fn parse_rejects_malformed_headers() {
    assert_eq!(Frame::parse(&[0u8; 10]), Err("Frame too short for header"));
    let mut buf = [0u8; 40];
    assert_eq!(Frame::parse(&buf), Err("Invalid frame magic sequence"));
    buf[0..4].copy_from_slice(b"SHVY");
    buf[4] = 0x7F;
    assert_eq!(Frame::parse(&buf), Err("Unknown frame type action"));
    buf[4] = 0x01;
    assert_eq!(Frame::parse(&buf[..30]), Err("Ping frame too short"));
    buf[4] = 0x02;
    assert_eq!(Frame::parse(&buf[..32]), Err("Pong frame too short"));
    buf[4] = 0x03;
    assert_eq!(Frame::parse(&buf[..40]), Err("ThermodynamicPush frame too short"));
    buf[4] = 0x04;
    assert_eq!(Frame::parse(&buf[..40]), Err("GradientDiff frame too short"));
    buf[4] = 0x05;
    assert_eq!(Frame::parse(&buf[..40]), Err("FindNode frame too short"));
    buf[4] = 0x06;
    assert_eq!(Frame::parse(&buf[..25]), Err("FoundNodes frame too short"));
    buf[4] = 0x07;
    assert_eq!(Frame::parse(&buf[..40]), Err("Store frame too short"));
    buf[4] = 0x08;
    assert_eq!(Frame::parse(&buf[..40]), Err("FindValue frame too short"));
    buf[4] = 0x09;
    assert_eq!(Frame::parse(&buf[..40]), Err("FoundValue frame too short"));
}

fn header(frame_type: u8, len: usize) -> Vec<u8> {
    let mut b = vec![0u8; len];
    b[0..4].copy_from_slice(b"SHVY");
    b[4] = frame_type;
    b
}

#[test]
fn parse_rejects_bad_peer_lists() {
    // count above the maximum
    let mut b = header(0x06, 26);
    b[25] = 9;
    assert_eq!(Frame::parse(&b), Err("FoundNodes count exceeds max"));
    // one peer announced, record cut short
    let mut b = header(0x06, 26 + 20);
    b[25] = 1;
    assert_eq!(Frame::parse(&b), Err("FoundNodes truncated mid-peer"));
    // one complete record whose address family is not IPv4
    let mut b = header(0x06, 26 + 27);
    b[25] = 1;
    b[26 + 20] = 6;
    assert_eq!(Frame::parse(&b), Err("only ipv4 sockaddrs supported"));
    // FOUND_VALUE: peer count byte missing, count too large, truncated
    let b = header(0x09, 48);
    assert_eq!(Frame::parse(&b), Err("FoundValue peer count missing"));
    let mut b = header(0x09, 49);
    b[48] = 9;
    assert_eq!(Frame::parse(&b), Err("FoundValue peer count exceeds max"));
    let mut b = header(0x09, 49 + 10);
    b[48] = 1;
    assert_eq!(Frame::parse(&b), Err("FoundValue truncated mid-peer"));
}

#[test]
fn parse_rejects_bad_values() {
    let mut b = header(0x07, 47);
    b[45] = 0x01;
    b[46] = 0x01; // 257
    assert_eq!(Frame::parse(&b), Err("Store value exceeds MAX_VALUE_BYTES"));
    let mut b = header(0x07, 50);
    b[46] = 5;
    assert_eq!(Frame::parse(&b), Err("Store frame value truncated"));
    let mut b = header(0x09, 60);
    b[46] = 0x02; // 512
    assert_eq!(Frame::parse(&b), Err("FoundValue value exceeds MAX_VALUE_BYTES"));
    let mut b = header(0x09, 60);
    b[45] = 1;
    b[47] = 20;
    assert_eq!(Frame::parse(&b), Err("FoundValue value truncated"));
}

#[test]
fn found_value_without_value_ignores_length_field() {
    // has_value == 0: the length field is read and bounded but no value follows.
    let mut b = header(0x09, 49);
    b[47] = 200;
    let f = Frame::parse(&b).unwrap();
    assert_eq!(
        f.payload,
        FramePayload::FoundValue { key: DhtKey([0u8; 20]), value: None, peers: Vec::new() }
    );
}

#[test]
fn serialize_reports_each_error() {
    let sender = NodeId([1u8; 20]);
    let ping = Frame { sender, payload: FramePayload::Ping { timestamp: 1 } };
    assert_eq!(ping.serialize(&mut [0u8; 24]), Err("Buffer too small for header"));
    assert_eq!(ping.serialize(&mut [0u8; 32]), Err("Buffer too small for Ping"));
    let pong = Frame { sender, payload: FramePayload::Pong { timestamp: 1 } };
    assert_eq!(pong.serialize(&mut [0u8; 32]), Err("Buffer too small for Pong"));

    let too_many: Vec<PeerInfo> = (0..9u8)
        .map(|i| PeerInfo { id: NodeId([i; 20]), address: v4(1, 1, 1, i, 1) })
        .collect();
    let fnodes = Frame { sender, payload: FramePayload::FoundNodes { peers: too_many.clone() } };
    assert_eq!(fnodes.serialize(&mut [0u8; 1024]), Err("FoundNodes too many peers"));

    let v6 = vec![PeerInfo { id: NodeId([2u8; 20]), address: PeerAddress::V6 { ip: [0u8; 16], port: 7, flowinfo: 0, scope_id: 0 } }];
    let fnodes6 = Frame { sender, payload: FramePayload::FoundNodes { peers: v6.clone() } };
    assert_eq!(fnodes6.serialize(&mut [0u8; 1024]), Err("ipv6 not supported in frame"));
    // when the record does not even fit, the size error comes first
    assert_eq!(fnodes6.serialize(&mut [0u8; 40]), Err("Buffer too small for peer record"));

    let store_big = Frame {
        sender,
        payload: FramePayload::Store {
            key: DhtKey([0u8; 20]),
            value_len: (MAX_VALUE_BYTES + 1) as u16,
            value: vec![0u8; MAX_VALUE_BYTES + 1],
        },
    };
    assert_eq!(store_big.serialize(&mut [0u8; 1024]), Err("Store value too large"));
    let store_mismatch = Frame {
        sender,
        payload: FramePayload::Store { key: DhtKey([0u8; 20]), value_len: 3, value: vec![1, 2] },
    };
    assert_eq!(store_mismatch.serialize(&mut [0u8; 1024]), Err("Store value_len mismatch"));
    let store = Frame {
        sender,
        payload: FramePayload::Store { key: DhtKey([0u8; 20]), value_len: 2, value: vec![1, 2] },
    };
    assert_eq!(store.serialize(&mut [0u8; 48]), Err("Buffer too small for Store"));

    let fv = |value: Option<Vec<u8>>, peers: Vec<PeerInfo>| Frame {
        sender,
        payload: FramePayload::FoundValue { key: DhtKey([3u8; 20]), value, peers },
    };
    assert_eq!(fv(None, vec![]).serialize(&mut [0u8; 47]), Err("Buffer too small for FoundValue header"));
    assert_eq!(fv(None, too_many).serialize(&mut [0u8; 1024]), Err("FoundValue too many peers"));
    assert_eq!(
        fv(Some(vec![0u8; 300]), vec![]).serialize(&mut [0u8; 1024]),
        Err("FoundValue value too large")
    );
    assert_eq!(
        fv(Some(vec![0u8; 10]), vec![]).serialize(&mut [0u8; 50]),
        Err("Buffer too small for FoundValue value")
    );
    assert_eq!(fv(Some(vec![0u8; 2]), vec![]).serialize(&mut [0u8; 50]), Err("Buffer too small for peer count"));
    assert_eq!(fv(None, v6).serialize(&mut [0u8; 1024]), Err("ipv6 not supported in frame"));
}

#[test]
fn parsed_frames_serialize_again() {
    // a non-canonical FOUND_VALUE: the value flag byte is 7 rather than 1
    let mut b = header(0x09, 48 + 3 + 1 + 27);
    b[45] = 7;
    b[47] = 3;
    b[48..51].copy_from_slice(&[1, 2, 3]);
    b[51] = 1;
    b[52..72].copy_from_slice(&[9u8; 20]);
    b[72] = 4;
    b[73..77].copy_from_slice(&[10, 0, 0, 1]);
    b[77..79].copy_from_slice(&8080u16.to_be_bytes());
    let f = Frame::parse(&b).unwrap();
    assert_eq!(
        f.payload,
        FramePayload::FoundValue {
            key: DhtKey([0u8; 20]),
            value: Some(vec![1, 2, 3]),
            peers: vec![PeerInfo { id: NodeId([9u8; 20]), address: v4(10, 0, 0, 1, 8080) }],
        }
    );
    let mut out = [0u8; 200];
    let n = f.serialize(&mut out).unwrap();
    assert_eq!(n, b.len());
    assert_eq!(out[45], 1);
    assert_eq!(Frame::parse(&out[..n]).unwrap(), f);
    b[45] = 1;
    assert_eq!(&out[..n], &b[..]);
}

#[test]
fn float_payloads_compare_as_f64_values() {
    let push = |fe: f64, p: f64| FramePayload::ThermodynamicPush {
        free_energy_bits: fe.to_bits(),
        pressure_bits: p.to_bits(),
    };
    assert_eq!(push(0.0, 1.0), push(-0.0, 1.0));
    assert_ne!(push(f64::NAN, 1.0), push(f64::NAN, 1.0));
    assert_ne!(push(1.0, 2.0), push(1.0, 2.5));
    let grad = |c: f64| FramePayload::GradientDiff {
        target_id: NodeId([1u8; 20]),
        coefficient_bits: c.to_bits(),
        flow_bits: 0.5f64.to_bits(),
    };
    assert_eq!(grad(-0.0), grad(0.0));
    assert_ne!(grad(f64::NAN), grad(f64::NAN));
    assert_ne!(
        FramePayload::Ping { timestamp: 1 },
        FramePayload::Pong { timestamp: 1 }
    );
    assert_eq!(
        FramePayload::Store { key: DhtKey([2u8; 20]), value_len: 2, value: vec![1, 2] },
        FramePayload::Store { key: DhtKey([2u8; 20]), value_len: 2, value: vec![1, 2] }
    );
    assert_ne!(
        FramePayload::FoundValue { key: DhtKey([2u8; 20]), value: None, peers: vec![] },
        FramePayload::FoundValue { key: DhtKey([2u8; 20]), value: Some(vec![]), peers: vec![] }
    );
}

#[test]
fn socket_address_round_trip() {
    let addr = v4(192, 168, 1, 20, 31415);
    let mut buf = [0xAAu8; 12];
    assert_eq!(shivya_core::protocol::encode_sockaddr(&mut buf, 3, addr), Ok(7));
    assert_eq!(&buf[..3], &[0xAA; 3]);
    assert_eq!(&buf[10..], &[0xAA; 2]);
    assert_eq!(shivya_core::protocol::decode_sockaddr(&buf, 3), Ok((addr, 7)));
    // failures leave the buffer as it was
    let v6 = PeerAddress::V6 { ip: [1u8; 16], port: 1, flowinfo: 0, scope_id: 0 };
    let mut buf2 = [0x55u8; 12];
    assert_eq!(shivya_core::protocol::encode_sockaddr(&mut buf2, 0, v6), Err("ipv6 not supported in frame"));
    assert_eq!(shivya_core::protocol::encode_sockaddr(&mut buf2, 6, addr), Err("buf too small for sockaddr"));
    assert_eq!(buf2, [0x55u8; 12]);
    assert_eq!(shivya_core::protocol::decode_sockaddr(&buf2, 6), Err("sockaddr slice too short"));
    assert_eq!(shivya_core::protocol::decode_sockaddr(&buf2, 0), Err("only ipv4 sockaddrs supported"));
}

#[test]
fn failed_serialize_still_writes_the_header() {
    let f = Frame { sender: NodeId([3u8; 20]), payload: FramePayload::Ping { timestamp: 1 } };
    let mut buf = [0u8; 30];
    assert_eq!(f.serialize(&mut buf), Err("Buffer too small for Ping"));
    assert_eq!(&buf[0..4], b"SHVY");
    assert_eq!(buf[4], 0x01);
    assert_eq!(&buf[5..25], &[3u8; 20]);
}
