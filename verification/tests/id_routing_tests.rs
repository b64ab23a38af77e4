use rhizome::id::{NodeID, bucket_index_of, compute_distance, leading_zero_bits, lex_le_bytes};
use rhizome::routing::{Node, RoutingTable};

fn id_with_first_bytes(b0: u8, b1: u8) -> NodeID {
    let mut bytes = [0u8; 20];
    bytes[0] = b0;
    bytes[1] = b1;
    NodeID::new(bytes)
}

fn peer(id: NodeID, port: u16, now: u64) -> Node {
    Node::new(id, b"127.0.0.1".to_vec(), port, now)
}

#[test]
fn xor_with_self_is_zero() {
    let a = id_with_first_bytes(0xab, 0xcd);
    let d = a.distance_to(&a);
    assert_eq!(d, [0u8; 20]);
}

#[test]
fn xor_is_symmetric() {
    let a = id_with_first_bytes(0x12, 0x34);
    let b = id_with_first_bytes(0x56, 0x78);
    assert_eq!(a.distance_to(&b), b.distance_to(&a));
}

#[test]
fn xor_distances_compose() {
    let a = id_with_first_bytes(0x0f, 0x01);
    let b = id_with_first_bytes(0xf0, 0x02);
    let c = id_with_first_bytes(0x3c, 0x04);
    let ab = a.distance_to(&b);
    let bc = b.distance_to(&c);
    let ac = a.distance_to(&c);
    let composed = compute_distance(&ab, &bc);
    assert_eq!(composed.as_slice(), ac.as_slice());
}

#[test]
fn compute_distance_exact_bytes() {
    let d = compute_distance(&[0x01, 0x02], &[0x03, 0x04]);
    assert_eq!(d, vec![0x02, 0x06]);
}

#[test]
fn leading_zero_bits_counts_bits() {
    assert_eq!(leading_zero_bits(&[0x80, 0x00]), 0);
    assert_eq!(leading_zero_bits(&[0x01, 0x00]), 7);
    assert_eq!(leading_zero_bits(&[0x00, 0x80]), 8);
    assert_eq!(leading_zero_bits(&[0x00, 0x00]), 16);
}

#[test]
fn lex_order_on_bytes() {
    assert!(lex_le_bytes(&[1, 2], &[1, 3]));
    assert!(!lex_le_bytes(&[2, 0], &[1, 255]));
    assert!(lex_le_bytes(&[1, 2], &[1, 2]));
    assert!(lex_le_bytes(&[1], &[1, 0]));
    assert!(!lex_le_bytes(&[1, 0], &[1]));
}

#[test]
fn bucket_placement_matches_leading_zero_count() {
    let local = id_with_first_bytes(0x00, 0x00);
    // distance to local starts with byte 0x80 -> zero leading zeros -> bucket 0
    let far = id_with_first_bytes(0x80, 0x00);
    assert_eq!(bucket_index_of(&local, &far, 160), 0);
    // distance starts 0x01 -> seven leading zeros -> bucket 7
    let nearer = id_with_first_bytes(0x01, 0x00);
    assert_eq!(bucket_index_of(&local, &nearer, 160), 7);
    // equal ids -> clamped to the last bucket
    assert_eq!(bucket_index_of(&local, &local, 160), 159);
}

#[test]
fn inserted_peer_lands_in_its_bucket() {
    let local = id_with_first_bytes(0x00, 0x00);
    let mut table = RoutingTable::new(local, 20, 160, 1000);
    let p = id_with_first_bytes(0x01, 0x00);
    assert!(table.add_node(peer(p, 1, 1000), 1000));
    let expected = bucket_index_of(&local, &p, 160);
    assert_eq!(table.buckets[expected].nodes.len(), 1);
    let (total, occupied) = table.stats();
    assert_eq!(total, 1);
    assert_eq!(occupied, 1);
}

#[test]
fn local_identifier_is_never_added() {
    let local = id_with_first_bytes(0xaa, 0x00);
    let mut table = RoutingTable::new(local, 20, 160, 0);
    assert!(!table.add_node(peer(local, 1, 0), 0));
    let (total, _) = table.stats();
    assert_eq!(total, 0);
}

#[test]
fn bucket_respects_its_bound() {
    let local = id_with_first_bytes(0x00, 0x00);
    let mut table = RoutingTable::new(local, 3, 160, 1000);
    // All peers share first byte 0x80 -> same bucket 0.
    for i in 0..10u8 {
        let mut bytes = [0u8; 20];
        bytes[0] = 0x80;
        bytes[19] = i;
        table.add_node(peer(NodeID::new(bytes), 1, 2000), 2000);
    }
    assert!(table.buckets[0].nodes.len() <= 3);
    let (total, _) = table.stats();
    assert_eq!(total, 3);
}

#[test]
fn full_bucket_evicts_stale_peer() {
    let local = id_with_first_bytes(0x00, 0x00);
    let mut table = RoutingTable::new(local, 2, 160, 0);
    let mut old_bytes = [0u8; 20];
    old_bytes[0] = 0x80;
    old_bytes[19] = 1;
    let stale_id = NodeID::new(old_bytes);
    // Seen at time 0; at time 10000 it is long stale (timeout 3600).
    assert!(table.add_node(peer(stale_id, 1, 0), 0));
    let mut b2 = old_bytes;
    b2[19] = 2;
    assert!(table.add_node(peer(NodeID::new(b2), 2, 9000), 9000));
    let mut b3 = old_bytes;
    b3[19] = 3;
    // Bucket full; the stale peer from time 0 gives way.
    assert!(table.add_node(peer(NodeID::new(b3), 3, 10000), 10000));
    let bucket = &table.buckets[0];
    assert_eq!(bucket.nodes.len(), 2);
    assert!(bucket.nodes.iter().all(|n| !n.node_id.equals(&stale_id)));
}

#[test]
fn full_bucket_drops_newcomer_when_none_stale() {
    let local = id_with_first_bytes(0x00, 0x00);
    let mut table = RoutingTable::new(local, 2, 160, 100);
    for i in 1..=2u8 {
        let mut b = [0u8; 20];
        b[0] = 0x80;
        b[19] = i;
        assert!(table.add_node(peer(NodeID::new(b), i as u16, 100), 100));
    }
    let mut b = [0u8; 20];
    b[0] = 0x80;
    b[19] = 9;
    assert!(!table.add_node(peer(NodeID::new(b), 9, 101), 101));
}

#[test]
fn closest_returns_the_nearest_across_buckets() {
    let local = id_with_first_bytes(0x00, 0x00);
    let mut table = RoutingTable::new(local, 20, 160, 5);
    let ids = [0x80u8, 0x40, 0x20, 0x10, 0x08];
    for (i, b0) in ids.iter().enumerate() {
        let mut b = [0u8; 20];
        b[0] = *b0;
        assert!(table.add_node(peer(NodeID::new(b), i as u16, 5), 5));
    }
    // Target near 0x08...: the two closest are 0x08... and 0x10...
    let mut t = [0u8; 20];
    t[0] = 0x08;
    let target = NodeID::new(t);
    let two = table.find_closest_nodes(&target, 2);
    assert_eq!(two.len(), 2);
    assert_eq!(two[0].node_id.0[0], 0x08);
    assert_eq!(two[1].node_id.0[0], 0x10);
    // Asking for more than exist returns all, closest first.
    let all = table.find_closest_nodes(&target, 10);
    assert_eq!(all.len(), 5);
    assert_eq!(all[0].node_id.0[0], 0x08);
}

#[test]
fn known_peer_moves_to_the_tail() {
    let local = id_with_first_bytes(0x00, 0x00);
    let mut table = RoutingTable::new(local, 3, 160, 0);
    let mut a = [0u8; 20];
    a[0] = 0x80;
    a[19] = 1;
    let mut b = a;
    b[19] = 2;
    table.add_node(peer(NodeID::new(a), 1, 10), 10);
    table.add_node(peer(NodeID::new(b), 2, 11), 11);
    // Refresh the first peer: it moves to the tail.
    table.add_node(peer(NodeID::new(a), 1, 12), 12);
    let bucket = &table.buckets[0];
    assert_eq!(bucket.nodes.len(), 2);
    assert_eq!(bucket.nodes[1].node_id.0[19], 1);
    assert_eq!(bucket.nodes[0].node_id.0[19], 2);
}

#[test]
fn remove_node_empties_its_bucket() {
    let local = id_with_first_bytes(0x00, 0x00);
    let mut table = RoutingTable::new(local, 4, 160, 0);
    let p = id_with_first_bytes(0x40, 0x00);
    table.add_node(peer(p, 7, 0), 0);
    table.remove_node(&p, 1);
    let (total, _) = table.stats();
    assert_eq!(total, 0);
}
