use rhizome::id::NodeID;
use rhizome::metrics::MetricsSnapshot;
use rhizome::ranking::RankedItem;
use rhizome::wire::{Message, Payload, PeerInfo, decode_message, encode_message};

fn sample_id() -> [u8; 16] {
    let mut id = [0u8; 16];
    for (i, b) in id.iter_mut().enumerate() {
        *b = i as u8;
    }
    id
}

fn sample_node(tag: u8) -> NodeID {
    let mut b = [0u8; 20];
    b[0] = tag;
    b[19] = tag.wrapping_mul(3);
    NodeID::new(b)
}

fn sample_peer(tag: u8) -> PeerInfo {
    PeerInfo { node_id: sample_node(tag), address: b"192.168.0.1".to_vec(), port: 8468 + tag as u16 }
}

fn sample_metrics() -> MetricsSnapshot {
    MetricsSnapshot {
        request_count: 42,
        request_rate_milli: 1500,
        replication_count: 7,
        freshness_milli: 930,
        audience_size: 5,
        social_engagements: 12,
        seed_coverage_milli: 250,
        first_seen: 1000,
        last_request: 2000,
    }
}

fn sample_item(tag: u8) -> RankedItem {
    RankedItem { key: vec![tag, tag + 1, tag + 2], score_milli: 7100, metrics: sample_metrics() }
}

fn roundtrip(payload: Payload) -> Message {
    let m = Message { id: sample_id(), sender: sample_node(0xEE), timestamp_milli: 123456789, payload };
    let bytes = encode_message(&m);
    let back = decode_message(&bytes).expect("canonical bytes decode");
    assert_eq!(back.id, m.id);
    assert!(back.sender.equals(&m.sender));
    assert_eq!(back.timestamp_milli, m.timestamp_milli);
    back
}

fn assert_peers(got: &[PeerInfo], want: &[PeerInfo]) {
    assert_eq!(got.len(), want.len());
    for (g, w) in got.iter().zip(want.iter()) {
        assert!(g.node_id.equals(&w.node_id));
        assert_eq!(g.address, w.address);
        assert_eq!(g.port, w.port);
    }
}

fn assert_items(got: &[RankedItem], want: &[RankedItem]) {
    assert_eq!(got.len(), want.len());
    for (g, w) in got.iter().zip(want.iter()) {
        assert_eq!(g.key, w.key);
        assert_eq!(g.score_milli, w.score_milli);
        assert_eq!(g.metrics, w.metrics);
    }
}

#[test]
fn ping_round_trips() {
    let back = roundtrip(Payload::Ping { node_id: sample_node(1) });
    match back.payload {
        Payload::Ping { node_id } => assert!(node_id.equals(&sample_node(1))),
        _ => panic!("wrong shape"),
    }
}

#[test]
fn pong_round_trips() {
    let back = roundtrip(Payload::Pong { node_id: sample_node(2), address: b"10.0.0.7".to_vec() });
    match back.payload {
        Payload::Pong { node_id, address } => {
            assert!(node_id.equals(&sample_node(2)));
            assert_eq!(address, b"10.0.0.7".to_vec());
        },
        _ => panic!("wrong shape"),
    }
}

#[test]
fn find_node_round_trips() {
    let back = roundtrip(Payload::FindNode { target_id: sample_node(3) });
    match back.payload {
        Payload::FindNode { target_id } => assert!(target_id.equals(&sample_node(3))),
        _ => panic!("wrong shape"),
    }
}

#[test]
fn find_node_response_round_trips() {
    let peers = vec![sample_peer(4), sample_peer(5), sample_peer(6)];
    let back = roundtrip(Payload::FindNodeResponse {
        nodes: vec![sample_peer(4), sample_peer(5), sample_peer(6)],
    });
    match back.payload {
        Payload::FindNodeResponse { nodes } => assert_peers(&nodes, &peers),
        _ => panic!("wrong shape"),
    }
}

#[test]
fn empty_peer_list_round_trips() {
    let back = roundtrip(Payload::FindNodeResponse { nodes: vec![] });
    match back.payload {
        Payload::FindNodeResponse { nodes } => assert!(nodes.is_empty()),
        _ => panic!("wrong shape"),
    }
}

#[test]
fn find_value_round_trips() {
    let back = roundtrip(Payload::FindValue { key: b"content-key".to_vec() });
    match back.payload {
        Payload::FindValue { key } => assert_eq!(key, b"content-key".to_vec()),
        _ => panic!("wrong shape"),
    }
}

#[test]
fn find_value_found_round_trips() {
    let back = roundtrip(Payload::FindValueFound { value: b"the value".to_vec() });
    match back.payload {
        Payload::FindValueFound { value } => assert_eq!(value, b"the value".to_vec()),
        _ => panic!("wrong shape"),
    }
}

#[test]
fn find_value_nodes_round_trips() {
    let peers = vec![sample_peer(9)];
    let back = roundtrip(Payload::FindValueNodes { nodes: vec![sample_peer(9)] });
    match back.payload {
        Payload::FindValueNodes { nodes } => assert_peers(&nodes, &peers),
        _ => panic!("wrong shape"),
    }
}

#[test]
fn store_round_trips() {
    let back = roundtrip(Payload::Store {
        key: b"k".to_vec(),
        value: b"v".to_vec(),
        ttl: 86400,
    });
    match back.payload {
        Payload::Store { key, value, ttl } => {
            assert_eq!(key, b"k".to_vec());
            assert_eq!(value, b"v".to_vec());
            assert_eq!(ttl, 86400);
        },
        _ => panic!("wrong shape"),
    }
}

#[test]
fn store_response_round_trips_both_ways() {
    for success in [true, false] {
        let back = roundtrip(Payload::StoreResponse { success });
        match back.payload {
            Payload::StoreResponse { success: s } => assert_eq!(s, success),
            _ => panic!("wrong shape"),
        }
    }
}

#[test]
fn popularity_exchange_round_trips() {
    let items = vec![sample_item(1), sample_item(10)];
    let back = roundtrip(Payload::PopularityExchange {
        items: vec![sample_item(1), sample_item(10)],
    });
    match back.payload {
        Payload::PopularityExchange { items: got } => assert_items(&got, &items),
        _ => panic!("wrong shape"),
    }
}

#[test]
fn popularity_exchange_response_round_trips() {
    let items = vec![sample_item(7)];
    let back = roundtrip(Payload::PopularityExchangeResponse { items: vec![sample_item(7)] });
    match back.payload {
        Payload::PopularityExchangeResponse { items: got } => assert_items(&got, &items),
        _ => panic!("wrong shape"),
    }
}

#[test]
fn global_ranking_request_round_trips() {
    let back = roundtrip(Payload::GlobalRankingRequest);
    assert!(matches!(back.payload, Payload::GlobalRankingRequest));
}

#[test]
fn global_ranking_response_round_trips() {
    let items = vec![sample_item(2), sample_item(3)];
    let back = roundtrip(Payload::GlobalRankingResponse {
        ranking: vec![sample_item(2), sample_item(3)],
    });
    match back.payload {
        Payload::GlobalRankingResponse { ranking } => assert_items(&ranking, &items),
        _ => panic!("wrong shape"),
    }
}

#[test]
fn garbage_does_not_decode() {
    assert!(decode_message(&[]).is_none());
    assert!(decode_message(&[0u8; 10]).is_none());
    // A reserved type byte is rejected even with a full header.
    let mut bytes = vec![0x0Du8];
    bytes.extend_from_slice(&[0u8; 44]);
    assert!(decode_message(&bytes).is_none());
}

#[test]
fn truncated_and_padded_messages_are_rejected() {
    let m = Message {
        id: sample_id(),
        sender: sample_node(1),
        timestamp_milli: 5,
        payload: Payload::FindValue { key: b"abc".to_vec() },
    };
    let bytes = encode_message(&m);
    assert!(decode_message(&bytes[..bytes.len() - 1]).is_none());
    let mut padded = bytes.clone();
    padded.push(0);
    assert!(decode_message(&padded).is_none());
}
