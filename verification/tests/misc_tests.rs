use rhizome::config::{Config, DHTConfig, NetworkConfig, NodeConfig, PopularityConfig,
    SecurityConfig, StorageConfig};
use rhizome::crypto::{generate_msg_id, hash_key, now_seconds, to_hex};
use rhizome::errors::{DHTError, NetworkError, RhizomeError, SecurityError, StorageError};
use rhizome::keys::{DHTKeyBuilder, KeyManager};
use rhizome::node_type::{Lifecycle, LifecycleState, NodeType, apply_node_type_limits,
    detect_node_type};
use rhizome::packet::Packet;

#[test]
fn keys_are_sha256_of_the_domain_string() {
    let expected = <sha2::Sha256 as sha2::Digest>::digest(b"thread:general:meta");
    assert_eq!(DHTKeyBuilder::thread_meta("general"), *expected);
    let expected = <sha2::Sha256 as sha2::Digest>::digest(b"global:threads");
    assert_eq!(DHTKeyBuilder::global_threads(), *expected);
    let expected = <sha2::Sha256 as sha2::Digest>::digest(b"msg:abc123");
    assert_eq!(DHTKeyBuilder::message("abc123"), *expected);
    let expected = <sha2::Sha256 as sha2::Digest>::digest(b"user:pk:reputation");
    assert_eq!(DHTKeyBuilder::user_reputation("pk"), *expected);
}

#[test]
fn key_manager_matches_the_builder() {
    let km = KeyManager::new();
    assert_eq!(km.get_thread_meta_key("t"), DHTKeyBuilder::thread_meta("t"));
    assert_eq!(km.get_message_key("m"), DHTKeyBuilder::message("m"));
    assert_eq!(km.get_global_threads_key(), DHTKeyBuilder::global_threads());
    assert_eq!(km.get_global_popular_key(), DHTKeyBuilder::global_popular());
    assert!(DHTKeyBuilder::parse_key(b"anything").is_none());
}

#[test]
fn distinct_domain_strings_give_distinct_keys() {
    assert_ne!(DHTKeyBuilder::thread_meta("a"), DHTKeyBuilder::thread_meta("b"));
    assert_ne!(DHTKeyBuilder::thread_meta("a"), DHTKeyBuilder::thread_index("a"));
}

#[test]
fn hex_encoding_matches_the_crate() {
    assert_eq!(to_hex(&[0xde, 0xad, 0xbe, 0xef]), "deadbeef");
    assert_eq!(to_hex(&[]), "");
    assert_eq!(to_hex(&[0x00, 0x0f]), hex::encode([0x00, 0x0f]));
}

#[test]
fn hash_key_matches_the_crate() {
    let ours = hash_key(b"some bytes");
    let theirs = <sha2::Sha256 as sha2::Digest>::digest(b"some bytes");
    assert_eq!(ours, *theirs);
}

#[test]
fn request_identifiers_are_long_and_rarely_collide() {
    let a = generate_msg_id();
    let b = generate_msg_id();
    assert_eq!(a.len(), 16);
    assert_ne!(a, b);
    let _ = now_seconds();
}

#[test]
fn defaults_follow_the_documentation() {
    let c: Config = Default::default();
    assert_eq!(c.dht.k, 20);
    assert_eq!(c.dht.alpha, 3);
    assert_eq!(c.dht.bucket_count, 160);
    assert_eq!(c.storage.max_storage_size, 10 * 1024 * 1024 * 1024);
    assert_eq!(c.storage.default_ttl, 86400);
    assert_eq!(c.network.listen_host, "0.0.0.0");
    assert_eq!(c.network.listen_port, 8468);
    assert_eq!(c.node.node_type, "full");
    assert_eq!(c.popularity.popularity_threshold_milli, 7000);
    assert_eq!(c.popularity.active_threshold_milli, 5000);
    assert_eq!(c.security.rate_limit_requests, 100);
    assert_eq!(c.security.rate_limit_window, 60);
    assert_eq!(c.log_level, "INFO");
    let d: DHTConfig = Default::default();
    assert_eq!(d.refresh_interval, 3600);
    let s: StorageConfig = Default::default();
    assert_eq!(s.popular_ttl, 2592000);
    let n: NetworkConfig = Default::default();
    assert!(n.bootstrap_nodes.is_empty());
    let nc: NodeConfig = Default::default();
    assert!(nc.auto_detect_type);
    let p: PopularityConfig = Default::default();
    assert_eq!(p.exchange_interval, 21600);
    let sec: SecurityConfig = Default::default();
    assert!(!sec.enable_tor);
}

#[test]
fn node_type_detection_uses_disk_thresholds() {
    let gib: u64 = 1024 * 1024 * 1024;
    assert_eq!(detect_node_type(100 * gib), NodeType::Seed);
    assert_eq!(detect_node_type(100 * gib - 1), NodeType::Full);
    assert_eq!(detect_node_type(10 * gib), NodeType::Full);
    assert_eq!(detect_node_type(gib), NodeType::Light);
    assert_eq!(detect_node_type(gib - 1), NodeType::Mobile);
    assert_eq!(detect_node_type(0), NodeType::Mobile);
}

#[test]
fn role_limits_cap_storage_and_buckets() {
    let mut c: Config = Default::default();
    apply_node_type_limits(&mut c, NodeType::Light);
    assert_eq!(c.storage.max_storage_size, 1024 * 1024 * 1024);
    assert_eq!(c.dht.k, 20);
    let mut c: Config = Default::default();
    apply_node_type_limits(&mut c, NodeType::Mobile);
    assert_eq!(c.storage.max_storage_size, 100 * 1024 * 1024);
    assert_eq!(c.dht.k, 10);
    let mut c: Config = Default::default();
    apply_node_type_limits(&mut c, NodeType::Seed);
    assert_eq!(c.storage.max_storage_size, 10 * 1024 * 1024 * 1024);
}

#[test]
fn node_type_names() {
    assert_eq!(NodeType::Seed.as_str(), "seed");
    assert_eq!(NodeType::Full.as_str(), "full");
    assert_eq!(NodeType::Light.as_str(), "light");
    assert_eq!(NodeType::Mobile.as_str(), "mobile");
}

#[test]
fn lifecycle_moves_only_forward() {
    let mut life = Lifecycle::new();
    assert_eq!(life.state, LifecycleState::Fresh);
    assert!(!life.is_running());
    assert!(life.start());
    assert!(life.is_running());
    // Starting twice does nothing.
    assert!(!life.start());
    assert!(life.stop());
    assert_eq!(life.state, LifecycleState::Stopped);
    // A stopped node neither stops nor starts again.
    assert!(!life.stop());
    assert!(!life.start());
}

#[test]
fn packet_round_trips() {
    let p = Packet::new(0xDEADBEEF, b"payload bytes");
    let framed = p.encode();
    let back = Packet::decode(&framed).unwrap();
    assert_eq!(back.id, 0xDEADBEEF);
    assert_eq!(back.data, b"payload bytes".to_vec());
    assert!(Packet::decode(&[1, 2, 3]).is_none());
    let empty = Packet::new(7, b"");
    let back = Packet::decode(&empty.encode()).unwrap();
    assert_eq!(back.id, 7);
    assert!(back.data.is_empty());
}

#[test]
fn error_messages_name_each_kind() {
    assert_eq!(RhizomeError::Dht(DHTError::ValueNotFound).message(), "Value not found in DHT");
    assert_eq!(RhizomeError::Storage(StorageError::StorageFull).message(), "Storage full");
    assert_eq!(
        RhizomeError::Network(NetworkError::RateLimitError).message(),
        "Rate limit exceeded",
    );
    assert_eq!(
        RhizomeError::Security(SecurityError::InvalidSignature).message(),
        "Invalid signature",
    );
    assert_eq!(RhizomeError::InvalidNodeType.message(), "Invalid node type");
    assert_eq!(DHTError::NodeNotFound.message(), "Node not found");
    assert_eq!(StorageError::ReplicationError.message(), "Replication error");
    assert_eq!(NetworkError::BootstrapError.message(), "Bootstrap process failed");
}
