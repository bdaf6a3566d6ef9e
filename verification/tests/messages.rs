use vpn_wire::messages::{NodeInfo, PeerInfo, SocketAddr};
use vpn_wire::types::{Address, Error, Range};
use vpn_wire::util::MsgBuffer;

fn addr4(a: u8, b: u8, c: u8, d: u8, prefix_len: u8) -> Range {
    Range {
        base: Address { data: [a, b, c, d, 0, 0, 0, 0, 0, 0, 0, 0, 0, 0, 0, 0], len: 4 },
        prefix_len,
    }
}

fn encode_to_vec(ni: &NodeInfo) -> Vec<u8> {
    let mut buf = MsgBuffer::new(2048);
    ni.encode(&mut buf);
    buf.message_vec()
}

#[test]
fn node_info_round_trip() {
    let ni = NodeInfo {
        peers: vec![
            PeerInfo {
                node_id: Some([7; 16]),
                addrs: vec![
                    SocketAddr::V6([1, 2, 3, 4, 5, 6, 7, 8, 9, 10, 11, 12, 13, 14, 15, 16], 53),
                    SocketAddr::V4([192, 168, 1, 1], 8000),
                ],
            },
            PeerInfo { node_id: None, addrs: vec![] },
        ],
        claims: vec![addr4(10, 0, 0, 0, 8), addr4(172, 16, 0, 0, 12)],
        peer_timeout: Some(600),
    };
    let bytes = encode_to_vec(&ni);
    let back = NodeInfo::decode(&bytes).unwrap();
    assert_eq!(back, ni);
}

#[test]
fn node_info_round_trip_no_timeout() {
    let ni = NodeInfo {
        peers: vec![PeerInfo { node_id: None, addrs: vec![SocketAddr::V4([1, 2, 3, 4], 1)] }],
        claims: vec![],
        peer_timeout: None,
    };
    let bytes = encode_to_vec(&ni);
    let back = NodeInfo::decode(&bytes).unwrap();
    assert_eq!(back, ni);
    assert_eq!(back.peer_timeout, None);
}

#[test]
fn encode_exact_bytes() {
    // one peer, no identifier, one IPv4 address; empty claims; no timeout
    let ni = NodeInfo {
        peers: vec![PeerInfo {
            node_id: None,
            addrs: vec![SocketAddr::V4([1, 2, 3, 4], 0x1234)],
        }],
        claims: vec![],
        peer_timeout: None,
    };
    let bytes = encode_to_vec(&ni);
    assert_eq!(bytes, vec![1, 0, 7, 0x01, 1, 2, 3, 4, 0x12, 0x34, 2, 0, 0, 0]);
}

#[test]
fn encode_exact_bytes_full() {
    // identifier, one IPv6 and one IPv4 address, one claim, a timeout
    let ni = NodeInfo {
        peers: vec![PeerInfo {
            node_id: Some([9; 16]),
            addrs: vec![
                SocketAddr::V4([10, 0, 0, 1], 0x0102),
                SocketAddr::V6([0xfe; 16], 0x0304),
            ],
        }],
        claims: vec![addr4(10, 0, 0, 0, 8)],
        peer_timeout: Some(0x1020),
    };
    let bytes = encode_to_vec(&ni);
    let mut expected = vec![1u8, 0, 41];
    expected.push(0x80 + 8 + 1); // flags: has identifier, one IPv6, one IPv4
    expected.extend_from_slice(&[9; 16]);
    expected.extend_from_slice(&[0xfe; 16]);
    expected.extend_from_slice(&[3, 4]);
    expected.extend_from_slice(&[10, 0, 0, 1, 1, 2]);
    expected.extend_from_slice(&[2, 0, 6, 4, 10, 0, 0, 0, 8]);
    expected.extend_from_slice(&[3, 0, 2, 0x10, 0x20]);
    expected.push(0);
    assert_eq!(bytes, expected);
}

#[test]
fn truncation_policy_keeps_first_seven() {
    // nine IPv4 addresses: only the first seven survive, order preserved
    let mut addrs = Vec::new();
    for i in 0..9u8 {
        addrs.push(SocketAddr::V4([i, 0, 0, 1], i as u16));
    }
    let ni = NodeInfo {
        peers: vec![PeerInfo { node_id: None, addrs }],
        claims: vec![],
        peer_timeout: None,
    };
    let back = NodeInfo::decode(&encode_to_vec(&ni)).unwrap();
    assert_eq!(back.peers.len(), 1);
    let kept = &back.peers[0].addrs;
    assert_eq!(kept.len(), 7);
    for i in 0..7u8 {
        assert_eq!(kept[i as usize], SocketAddr::V4([i, 0, 0, 1], i as u16));
    }
}

#[test]
fn unknown_tag_is_skipped() {
    // a part with tag 9 and arbitrary body decodes as if it were absent
    let with_unknown = [9u8, 0, 3, 0xde, 0xad, 0xbe, 3, 0, 2, 0, 5, 0];
    let without = [3u8, 0, 2, 0, 5, 0];
    let a = NodeInfo::decode(&with_unknown).unwrap();
    let b = NodeInfo::decode(&without).unwrap();
    assert_eq!(a, b);
    assert_eq!(a.peer_timeout, Some(5));
    assert!(a.peers.is_empty());
    assert!(a.claims.is_empty());
}

#[test]
fn recognized_part_with_trailing_bytes_is_accepted() {
    // a timeout part longer than its schema: the extra bytes are discarded
    let bytes = [3u8, 0, 4, 0, 5, 9, 9, 0];
    let ni = NodeInfo::decode(&bytes).unwrap();
    assert_eq!(ni.peer_timeout, Some(5));
    assert!(ni.peers.is_empty());
}

#[test]
fn truncated_prefixes_fail() {
    let ni = NodeInfo {
        peers: vec![PeerInfo {
            node_id: Some([1; 16]),
            addrs: vec![
                SocketAddr::V6([2; 16], 19),
                SocketAddr::V4([10, 1, 2, 3], 77),
            ],
        }],
        claims: vec![addr4(10, 0, 0, 0, 8)],
        peer_timeout: Some(300),
    };
    let bytes = encode_to_vec(&ni);
    assert!(NodeInfo::decode(&bytes).is_ok());
    for i in 0..bytes.len() {
        match NodeInfo::decode(&bytes[..i]) {
            Err(Error::TooShort(_)) => {}
            other => panic!("prefix of {} bytes: expected a truncation error, got {:?}", i, other),
        }
    }
}

#[test]
fn malformed_range_is_distinct_from_truncation() {
    // a claims part whose record announces a 17-byte address
    let bytes = [2u8, 0, 1, 17, 0];
    match NodeInfo::decode(&bytes) {
        Err(Error::Malformed(_)) => {}
        other => panic!("expected a malformed error, got {:?}", other),
    }
}

#[test]
fn short_timeout_part_fails() {
    let bytes = [3u8, 0, 1, 5, 0];
    match NodeInfo::decode(&bytes) {
        Err(Error::TooShort(_)) => {}
        other => panic!("expected a truncation error, got {:?}", other),
    }
}

#[test]
fn missing_terminator_fails() {
    // both parts complete, but no terminator tag follows
    let bytes = [1u8, 0, 0, 2, 0, 0];
    assert!(NodeInfo::decode(&bytes).is_err());
    let with_end = [1u8, 0, 0, 2, 0, 0, 0];
    assert!(NodeInfo::decode(&with_end).is_ok());
}

#[test]
fn later_part_overrides_earlier() {
    // two timeout parts: the later one wins, as the decoder overwrites
    let bytes = [3u8, 0, 2, 0, 5, 3, 0, 2, 0, 9, 0];
    let ni = NodeInfo::decode(&bytes).unwrap();
    assert_eq!(ni.peer_timeout, Some(9));
}

#[test]
fn range_record_round_trip() {
    let r = addr4(192, 168, 0, 0, 16);
    let mut out = Vec::new();
    r.write_to(&mut out);
    assert_eq!(out, vec![4, 192, 168, 0, 0, 16]);
    let (back, consumed) = Range::read_from(&out, 0, out.len()).unwrap();
    assert_eq!(back, r);
    assert_eq!(consumed, out.len());
}

#[test]
fn msg_buffer_tracks_length_and_capacity() {
    let mut buf = MsgBuffer::new(64);
    assert_eq!(buf.capacity(), 64);
    assert_eq!(buf.length(), 0);
    let ni = NodeInfo { peers: vec![], claims: vec![], peer_timeout: None };
    ni.encode(&mut buf);
    // empty peer list part, empty claims part, terminator
    assert_eq!(buf.length(), 7);
    assert_eq!(buf.capacity(), 64);
    assert_eq!(buf.message_vec(), vec![1, 0, 0, 2, 0, 0, 0]);
}

#[test]
fn empty_input_fails() {
    match NodeInfo::decode(&[]) {
        Err(Error::TooShort(_)) => {}
        other => panic!("expected a truncation error, got {:?}", other),
    }
}
