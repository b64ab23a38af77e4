use rhizome::correlate::CorrelationTable;
use rhizome::errors::{NetworkError, RhizomeError};
use rhizome::exchanger::PopularityExchanger;
use rhizome::id::NodeID;
use rhizome::lookup::{LookupState, count_successes};
use rhizome::metrics::MetricsCollector;
use rhizome::protocol::{Engine, HandleOutcome, interpret_find_node_response, interpret_pong,
    interpret_store_response, target_id_of_key};
use rhizome::ranking::PopularityRanker;
use rhizome::ratelimit::RateLimiter;
use rhizome::routing::{Node, RoutingTable};
use rhizome::store::Storage;
use rhizome::wire::{Message, Payload, encode_message};

fn node_id(tag: u8) -> NodeID {
    let mut b = [0u8; 20];
    b[0] = tag;
    NodeID::new(b)
}

fn fresh_engine(local: u8) -> Engine {
    Engine {
        node_id: node_id(local),
        local_address: b"127.0.0.1".to_vec(),
        local_port: 8468,
        routing_table: RoutingTable::new(node_id(local), 20, 160, 0),
        storage: Storage::new(1 << 20),
        rate_limiter: RateLimiter::new(100, 60, 20),
        metrics: MetricsCollector::new(),
        correlation: CorrelationTable::new(),
        exchanger: PopularityExchanger::new(PopularityRanker::new(7000, 5000)),
    }
}

fn request(sender: u8, id_byte: u8, payload: Payload) -> Message {
    let mut id = [0u8; 16];
    id[0] = id_byte;
    Message { id, sender: node_id(sender), timestamp_milli: 1, payload }
}

#[test]
fn correlation_slots_do_not_cross() {
    let mut table = CorrelationTable::new();
    let mut id1 = [0u8; 16];
    id1[0] = 1;
    let mut id2 = [0u8; 16];
    id2[0] = 2;
    assert!(table.register(id1, 111));
    assert!(table.register(id2, 222));
    // A response carrying the first identifier reaches only its caller.
    assert_eq!(table.take(&id1), Some(111));
    // The second slot is untouched and still answers its own caller.
    assert_eq!(table.take(&id2), Some(222));
    // Consumed slots stay consumed.
    assert_eq!(table.take(&id1), None);
    assert_eq!(table.len(), 0);
}

#[test]
fn duplicate_registration_is_refused() {
    let mut table = CorrelationTable::new();
    let id = [7u8; 16];
    assert!(table.register(id, 1));
    assert!(!table.register(id, 2));
    assert_eq!(table.take(&id), Some(1));
}

#[test]
fn per_peer_cap_rejects_the_next_request() {
    let mut limiter = RateLimiter::new(100, 60, 5);
    let peer = b"peer".to_vec();
    for _ in 0..5 {
        assert!(limiter.check_rate_limit(Some(&peer), 10).is_ok());
    }
    let refused = limiter.check_rate_limit(Some(&peer), 10);
    assert_eq!(refused, Err(RhizomeError::Network(NetworkError::RateLimitError)));
    // Another peer is still admitted.
    assert!(limiter.check_rate_limit(Some(&b"other".to_vec()), 10).is_ok());
}

#[test]
fn global_cap_rejects_and_window_slides() {
    let mut limiter = RateLimiter::new(3, 60, 100);
    for _ in 0..3 {
        assert!(limiter.check_rate_limit(None, 0).is_ok());
    }
    assert!(limiter.check_rate_limit(None, 0).is_err());
    // Beyond the window the old requests no longer count.
    assert!(limiter.check_rate_limit(None, 61).is_ok());
}

#[test]
fn ping_gets_pong_and_registers_the_sender() {
    let mut engine = fresh_engine(0xAA);
    let m = request(0x01, 9, Payload::Ping { node_id: node_id(0x01) });
    let reply = engine.handle_request(m, &b"10.1.1.1".to_vec(), 1111, 50, 50_000).unwrap();
    assert_eq!(reply.id[0], 9);
    assert!(reply.sender.equals(&node_id(0xAA)));
    match reply.payload {
        Payload::Pong { node_id: nid, address } => {
            assert!(nid.equals(&node_id(0xAA)));
            assert_eq!(address, b"127.0.0.1".to_vec());
        },
        _ => panic!("expected a pong"),
    }
    let (total, _) = engine.routing_table.stats();
    assert_eq!(total, 1);
}

#[test]
fn store_then_find_value_through_the_engine() {
    let mut engine = fresh_engine(0xAA);
    let store = request(0x01, 1, Payload::Store {
        key: b"k".to_vec(),
        value: b"v".to_vec(),
        ttl: 100,
    });
    let reply = engine.handle_request(store, &b"h".to_vec(), 1, 10, 10_000).unwrap();
    assert!(interpret_store_response(reply));
    let find = request(0x02, 2, Payload::FindValue { key: b"k".to_vec() });
    let reply = engine.handle_request(find, &b"h".to_vec(), 1, 20, 20_000).unwrap();
    match reply.payload {
        Payload::FindValueFound { value } => assert_eq!(value, b"v".to_vec()),
        _ => panic!("expected the value"),
    }
    // After expiry the engine answers with peers instead.
    let find = request(0x02, 3, Payload::FindValue { key: b"k".to_vec() });
    let reply = engine.handle_request(find, &b"h".to_vec(), 1, 500, 500_000).unwrap();
    assert!(matches!(reply.payload, Payload::FindValueNodes { .. }));
    // Both lookups were counted.
    assert!(engine.metrics.get_metrics(&b"k".to_vec()).is_some());
}

#[test]
fn find_node_returns_sorted_known_peers() {
    let mut engine = fresh_engine(0x00);
    for tag in [0x80u8, 0x40, 0x20] {
        let peer = Node::new(node_id(tag), b"p".to_vec(), 1, 5);
        engine.routing_table.add_node(peer, 5);
    }
    let m = request(0x01, 4, Payload::FindNode { target_id: node_id(0x20) });
    let reply = engine.handle_request(m, &b"h".to_vec(), 1, 6, 6_000).unwrap();
    let peers = interpret_find_node_response(reply).unwrap();
    assert_eq!(peers.len(), 3);
    assert_eq!(peers[0].node_id.0[0], 0x20);
}

#[test]
fn response_shaped_messages_get_no_reply() {
    let mut engine = fresh_engine(0xAA);
    let m = request(0x01, 5, Payload::StoreResponse { success: true });
    assert!(engine.handle_request(m, &b"h".to_vec(), 1, 1, 1000).is_none());
    let m = request(0x01, 6, Payload::Pong { node_id: node_id(1), address: b"a".to_vec() });
    assert!(engine.handle_request(m, &b"h".to_vec(), 1, 1, 1000).is_none());
}

#[test]
fn inbound_datagram_flow_drops_correlates_and_replies() {
    let mut engine = fresh_engine(0xAA);
    // Garbage is dropped.
    let outcome = engine.handle_incoming_message(&[1, 2, 3], &b"h".to_vec(), 1, 1, 1000);
    assert!(matches!(outcome, HandleOutcome::Dropped));
    // A request gets a reply.
    let ping = request(0x01, 7, Payload::Ping { node_id: node_id(0x01) });
    let bytes = encode_message(&ping);
    let outcome = engine.handle_incoming_message(&bytes, &b"h".to_vec(), 1, 2, 2000);
    assert!(matches!(outcome, HandleOutcome::Reply { .. }));
    // A message matching an open slot is delivered to its caller.
    let mut rid = [0u8; 16];
    rid[0] = 0x77;
    assert!(engine.correlation.register(rid, 424242));
    let response = Message {
        id: rid,
        sender: node_id(0x01),
        timestamp_milli: 3,
        payload: Payload::StoreResponse { success: true },
    };
    let bytes = encode_message(&response);
    match engine.handle_incoming_message(&bytes, &b"h".to_vec(), 1, 3, 3000) {
        HandleOutcome::Correlated { ticket, message } => {
            assert_eq!(ticket, 424242);
            assert!(interpret_store_response(message));
        },
        _ => panic!("expected correlation"),
    }
}

#[test]
fn rate_limited_datagrams_are_dropped_silently() {
    let mut engine = fresh_engine(0xAA);
    engine.rate_limiter = RateLimiter::new(2, 60, 2);
    let ping = request(0x01, 8, Payload::Ping { node_id: node_id(0x01) });
    let bytes = encode_message(&ping);
    let first = engine.handle_incoming_message(&bytes, &b"h".to_vec(), 1, 1, 1000);
    assert!(matches!(first, HandleOutcome::Reply { .. }));
    let second = engine.handle_incoming_message(&bytes, &b"h".to_vec(), 1, 1, 1000);
    assert!(matches!(second, HandleOutcome::Reply { .. }));
    let third = engine.handle_incoming_message(&bytes, &b"h".to_vec(), 1, 1, 1000);
    assert!(matches!(third, HandleOutcome::Dropped));
}

#[test]
fn target_id_pads_short_keys() {
    let t = target_id_of_key(&b"ab".to_vec());
    assert_eq!(t.0[0], b'a');
    assert_eq!(t.0[1], b'b');
    assert_eq!(t.0[2..], [0u8; 18]);
}

#[test]
fn pong_interpretation_reads_the_true_identifier() {
    let m = request(0x05, 9, Payload::Pong { node_id: node_id(0x33), address: b"a".to_vec() });
    assert!(interpret_pong(m).unwrap().equals(&node_id(0x33)));
    let not_pong = request(0x05, 9, Payload::GlobalRankingRequest);
    assert!(interpret_pong(not_pong).is_none());
}

#[test]
fn lookup_converges_over_waves() {
    let seeds = vec![
        Node::new(node_id(0x80), b"a".to_vec(), 1, 0),
        Node::new(node_id(0x40), b"b".to_vec(), 2, 0),
    ];
    let mut lookup = LookupState::start(node_id(0x01), 2, seeds);
    let wave = lookup.take_wave();
    assert_eq!(wave.len(), 2);
    // The wave is marked queried: nothing is handed out twice.
    assert!(lookup.take_wave().is_empty());
    // A closer peer arriving resharpens the frontier.
    let found = vec![Node::new(node_id(0x03), b"c".to_vec(), 3, 1)];
    assert!(lookup.absorb(&found));
    let best = lookup.best();
    assert_eq!(best[0].node_id.0[0], 0x03);
    // Absorbing only known peers reports nothing new.
    let again = vec![Node::new(node_id(0x03), b"c".to_vec(), 3, 2)];
    assert!(!lookup.absorb(&again));
    // The new peer is queried in the next wave.
    let wave = lookup.take_wave();
    assert_eq!(wave.len(), 1);
    assert_eq!(wave[0].node_id.0[0], 0x03);
}

#[test]
fn store_fanout_counts_acknowledgements() {
    assert_eq!(count_successes(&vec![true, false, true, false]), 2);
    assert_eq!(count_successes(&vec![false, false]), 0);
    assert_eq!(count_successes(&vec![]), 0);
}

#[test]
fn two_engines_store_and_fetch_over_encoded_datagrams() {
    let mut node_a = fresh_engine(0x01);
    let mut node_b = fresh_engine(0xFE);

    // B announces itself to A; A learns B from the probe.
    let mut rid = [0u8; 16];
    rid[0] = 1;
    assert!(node_b.correlation.register(rid, 1));
    let ping = Message {
        id: rid,
        sender: node_b.node_id,
        timestamp_milli: 1,
        payload: Payload::Ping { node_id: node_b.node_id },
    };
    let reply = match node_a.handle_incoming_message(
        &encode_message(&ping), &b"hostB".to_vec(), 9000, 1, 1000,
    ) {
        HandleOutcome::Reply { message } => message,
        _ => panic!("expected a reply"),
    };
    match node_b.handle_incoming_message(&encode_message(&reply), &b"hostA".to_vec(), 9001, 1, 1000)
    {
        HandleOutcome::Correlated { ticket, message } => {
            assert_eq!(ticket, 1);
            assert!(interpret_pong(message).unwrap().equals(&node_a.node_id));
        },
        _ => panic!("expected correlation"),
    }
    let (total, _) = node_a.routing_table.stats();
    assert_eq!(total, 1);

    // B asks A to store, then fetches the value back, all through bytes.
    let mut rid2 = [0u8; 16];
    rid2[0] = 2;
    assert!(node_b.correlation.register(rid2, 2));
    let store = Message {
        id: rid2,
        sender: node_b.node_id,
        timestamp_milli: 2,
        payload: Payload::Store { key: b"hello".to_vec(), value: b"world".to_vec(), ttl: 60 },
    };
    let reply = match node_a.handle_incoming_message(
        &encode_message(&store), &b"hostB".to_vec(), 9000, 2, 2000,
    ) {
        HandleOutcome::Reply { message } => message,
        _ => panic!("expected a reply"),
    };
    match node_b.handle_incoming_message(&encode_message(&reply), &b"hostA".to_vec(), 9001, 2, 2000)
    {
        HandleOutcome::Correlated { ticket, message } => {
            assert_eq!(ticket, 2);
            assert!(interpret_store_response(message));
        },
        _ => panic!("expected correlation"),
    }

    let mut rid3 = [0u8; 16];
    rid3[0] = 3;
    assert!(node_b.correlation.register(rid3, 3));
    let find = Message {
        id: rid3,
        sender: node_b.node_id,
        timestamp_milli: 3,
        payload: Payload::FindValue { key: b"hello".to_vec() },
    };
    let reply = match node_a.handle_incoming_message(
        &encode_message(&find), &b"hostB".to_vec(), 9000, 3, 3000,
    ) {
        HandleOutcome::Reply { message } => message,
        _ => panic!("expected a reply"),
    };
    match node_b.handle_incoming_message(&encode_message(&reply), &b"hostA".to_vec(), 9001, 3, 3000)
    {
        HandleOutcome::Correlated { ticket, message } => {
            assert_eq!(ticket, 3);
            match message.payload {
                Payload::FindValueFound { value } => assert_eq!(value, b"world".to_vec()),
                _ => panic!("expected the value"),
            }
        },
        _ => panic!("expected correlation"),
    }
}
