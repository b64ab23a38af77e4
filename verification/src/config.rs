//! Node configuration: each subsystem's knobs with their defaults.
//! Reading layered YAML files and environment variables happens outside;
//! this module fixes what the values default to and mean.
use vstd::prelude::*;

verus! {

/// Default bucket capacity.
pub fn d_k() -> (r: i32)
    ensures
        r == 20,
{
    20
}

/// Default lookup parallelism.
pub fn d_alpha() -> (r: i32)
    ensures
        r == 3,
{
    3
}

/// Default identifier width in bits, and bucket count.
pub fn d_bits() -> (r: i32)
    ensures
        r == 160,
{
    160
}

/// Default bucket refresh interval, in seconds.
pub fn d_refresh() -> (r: i32)
    ensures
        r == 3600,
{
    3600
}

/// Default ping timeout, in seconds.
pub fn d_ping_to() -> (r: u64)
    ensures
        r == 5,
{
    5
}

/// Default request timeout, in seconds.
pub fn d_req_to() -> (r: u64)
    ensures
        r == 10,
{
    10
}

/// Default data directory.
pub fn d_data_dir() -> (r: String)
    ensures
        r@ == "data"@,
{
    String::from_str("data")
}

/// Default storage budget, in bytes: ten gibibytes.
pub fn d_max_storage() -> (r: u64)
    ensures
        r == 10737418240,
{
    10737418240
}

/// Default time-to-live, in seconds: one day.
pub fn d_ttl_def() -> (r: i32)
    ensures
        r == 86400,
{
    86400
}

/// Time-to-live of popular content, in seconds: thirty days.
pub fn d_ttl_pop() -> (r: i32)
    ensures
        r == 2592000,
{
    2592000
}

/// Time-to-live of active content, in seconds: seven days.
pub fn d_ttl_act() -> (r: i32)
    ensures
        r == 604800,
{
    604800
}

/// Time-to-live of private content, in seconds: three hours.
pub fn d_ttl_priv() -> (r: i32)
    ensures
        r == 10800,
{
    10800
}

/// Minimum guaranteed time-to-live, in seconds: one hour.
pub fn d_ttl_min() -> (r: i32)
    ensures
        r == 3600,
{
    3600
}

/// Default listen host.
pub fn d_host() -> (r: String)
    ensures
        r@ == "0.0.0.0"@,
{
    String::from_str("0.0.0.0")
}

/// Default listen port.
pub fn d_port() -> (r: i32)
    ensures
        r == 8468,
{
    8468
}

/// Default connection cap.
pub fn d_max_conn() -> (r: i32)
    ensures
        r == 100,
{
    100
}

/// Default connection timeout, in seconds.
pub fn d_conn_to() -> (r: u64)
    ensures
        r == 30,
{
    30
}

/// Default node type.
pub fn d_node_type() -> (r: String)
    ensures
        r@ == "full"@,
{
    String::from_str("full")
}

/// The enabled default.
pub fn d_true() -> (r: bool)
    ensures
        r == true,
{
    true
}

/// The disabled default.
pub fn d_false() -> (r: bool)
    ensures
        r == false,
{
    false
}

/// Default identity file path.
pub fn d_id_file() -> (r: String)
    ensures
        r@ == "node_id.pem"@,
{
    String::from_str("node_id.pem")
}

/// Default state file path.
pub fn d_state_file() -> (r: String)
    ensures
        r@ == "node_state.json"@,
{
    String::from_str("node_state.json")
}

/// Default popularity update interval, in seconds: one hour.
pub fn d_upd_int() -> (r: i32)
    ensures
        r == 3600,
{
    3600
}

/// Default gossip interval, in seconds: six hours.
pub fn d_exc_int() -> (r: i32)
    ensures
        r == 21600,
{
    21600
}

/// Default consensus interval, in seconds: three hours.
pub fn d_glob_int() -> (r: i32)
    ensures
        r == 10800,
{
    10800
}

/// Default popularity threshold, in thousandths of a score: seven.
pub fn d_pop_thr() -> (r: u32)
    ensures
        r == 7000,
{
    7000
}

/// Default activity threshold, in thousandths of a score: five.
pub fn d_act_thr() -> (r: u32)
    ensures
        r == 5000,
{
    5000
}

/// Default ring-signature anonymity set size.
pub fn d_ring_size() -> (r: i32)
    ensures
        r == 8,
{
    8
}

/// Default global request cap per window.
pub fn d_rate_lim() -> (r: i32)
    ensures
        r == 100,
{
    100
}

/// Default rate-limit window, in seconds.
pub fn d_rate_win() -> (r: i32)
    ensures
        r == 60,
{
    60
}

/// Default log level.
pub fn d_log_level() -> (r: String)
    ensures
        r@ == "INFO"@,
{
    String::from_str("INFO")
}

/// Seconds of silence after which a bucket peer counts as stale.
pub fn d_bucket_timeout() -> (r: u64)
    ensures
        r == 3600,
{
    3600
}

/// Kademlia parameters.
pub struct DHTConfig {
    /// Bucket capacity.
    pub k: i32,
    /// Lookup parallelism.
    pub alpha: i32,
    /// Identifier width in bits.
    pub node_id_bits: i32,
    /// Number of buckets in the routing table.
    pub bucket_count: i32,
    /// Bucket refresh interval, in seconds.
    pub refresh_interval: i32,
    /// Ping timeout, in seconds.
    pub ping_timeout_secs: u64,
    /// Request timeout, in seconds.
    pub request_timeout_secs: u64,
}

impl Default for DHTConfig {
    /// The documented defaults.
    fn default() -> (r: DHTConfig)
        ensures
            r.k == 20 && r.alpha == 3 && r.node_id_bits == 160 && r.bucket_count == 160
                && r.refresh_interval == 3600 && r.ping_timeout_secs == 5
                && r.request_timeout_secs == 10,
    {
        DHTConfig {
            k: d_k(),
            alpha: d_alpha(),
            node_id_bits: d_bits(),
            bucket_count: d_bits(),
            refresh_interval: d_refresh(),
            ping_timeout_secs: d_ping_to(),
            request_timeout_secs: d_req_to(),
        }
    }
}

/// Local storage parameters.
pub struct StorageConfig {
    /// Directory where data persists.
    pub data_dir: String,
    /// Storage budget, in bytes.
    pub max_storage_size: u64,
    /// Default time-to-live, in seconds.
    pub default_ttl: i32,
    /// Time-to-live of popular content, in seconds.
    pub popular_ttl: i32,
    /// Time-to-live of active content, in seconds.
    pub active_ttl: i32,
    /// Time-to-live of private content, in seconds.
    pub private_ttl: i32,
    /// Minimum guaranteed time-to-live, in seconds.
    pub min_guaranteed_ttl: i32,
}

impl Default for StorageConfig {
    /// The documented defaults.
    fn default() -> (r: StorageConfig)
        ensures
            r.data_dir@ == "data"@ && r.max_storage_size == 10737418240 && r.default_ttl == 86400
                && r.popular_ttl == 2592000 && r.active_ttl == 604800 && r.private_ttl == 10800
                && r.min_guaranteed_ttl == 3600,
    {
        StorageConfig {
            data_dir: d_data_dir(),
            max_storage_size: d_max_storage(),
            default_ttl: d_ttl_def(),
            popular_ttl: d_ttl_pop(),
            active_ttl: d_ttl_act(),
            private_ttl: d_ttl_priv(),
            min_guaranteed_ttl: d_ttl_min(),
        }
    }
}

/// Transport parameters.
pub struct NetworkConfig {
    /// Host to bind.
    pub listen_host: String,
    /// Port to bind.
    pub listen_port: i32,
    /// Bootstrap peer addresses, as `host:port` text.
    pub bootstrap_nodes: Vec<String>,
    /// Connection cap.
    pub max_connections: i32,
    /// Connection timeout, in seconds.
    pub connection_timeout_secs: u64,
}

impl Default for NetworkConfig {
    /// The documented defaults.
    fn default() -> (r: NetworkConfig)
        ensures
            r.listen_host@ == "0.0.0.0"@ && r.listen_port == 8468 && r.bootstrap_nodes@.len() == 0
                && r.max_connections == 100 && r.connection_timeout_secs == 30,
    {
        NetworkConfig {
            listen_host: d_host(),
            listen_port: d_port(),
            bootstrap_nodes: Vec::new(),
            max_connections: d_max_conn(),
            connection_timeout_secs: d_conn_to(),
        }
    }
}

/// Identity and state parameters.
pub struct NodeConfig {
    /// The node's role name.
    pub node_type: String,
    /// Whether to pick the role from available disk space.
    pub auto_detect_type: bool,
    /// Path of the identity file.
    pub node_id_file: String,
    /// Path of the persisted state file.
    pub state_file: String,
}

impl Default for NodeConfig {
    /// The documented defaults.
    fn default() -> (r: NodeConfig)
        ensures
            r.node_type@ == "full"@ && r.auto_detect_type == true && r.node_id_file@
                == "node_id.pem"@ && r.state_file@ == "node_state.json"@,
    {
        NodeConfig {
            node_type: d_node_type(),
            auto_detect_type: d_true(),
            node_id_file: d_id_file(),
            state_file: d_state_file(),
        }
    }
}

/// Popularity engine parameters.
pub struct PopularityConfig {
    /// Metrics update interval, in seconds.
    pub update_interval: i32,
    /// Gossip interval, in seconds.
    pub exchange_interval: i32,
    /// Consensus interval, in seconds.
    pub global_update_interval: i32,
    /// Popularity threshold, in thousandths of a score.
    pub popularity_threshold_milli: u32,
    /// Activity threshold, in thousandths of a score.
    pub active_threshold_milli: u32,
}

impl Default for PopularityConfig {
    /// The documented defaults.
    fn default() -> (r: PopularityConfig)
        ensures
            r.update_interval == 3600 && r.exchange_interval == 21600 && r.global_update_interval
                == 10800 && r.popularity_threshold_milli == 7000 && r.active_threshold_milli
                == 5000,
    {
        PopularityConfig {
            update_interval: d_upd_int(),
            exchange_interval: d_exc_int(),
            global_update_interval: d_glob_int(),
            popularity_threshold_milli: d_pop_thr(),
            active_threshold_milli: d_act_thr(),
        }
    }
}

/// Security and admission parameters.
pub struct SecurityConfig {
    /// Whether ring signatures are enabled.
    pub enable_ring_signatures: bool,
    /// Ring-signature anonymity set size.
    pub ring_size: i32,
    /// Whether stealth addresses are enabled.
    pub enable_stealth_addresses: bool,
    /// Whether to route through Tor.
    pub enable_tor: bool,
    /// Whether to route through I2P.
    pub enable_i2p: bool,
    /// Global request cap per window.
    pub rate_limit_requests: i32,
    /// Rate-limit window, in seconds.
    pub rate_limit_window: i32,
}

impl Default for SecurityConfig {
    /// The documented defaults.
    fn default() -> (r: SecurityConfig)
        ensures
            r.enable_ring_signatures == true && r.ring_size == 8 && r.enable_stealth_addresses
                == true && r.enable_tor == false && r.enable_i2p == false && r.rate_limit_requests
                == 100 && r.rate_limit_window == 60,
    {
        SecurityConfig {
            enable_ring_signatures: d_true(),
            ring_size: d_ring_size(),
            enable_stealth_addresses: d_true(),
            enable_tor: d_false(),
            enable_i2p: d_false(),
            rate_limit_requests: d_rate_lim(),
            rate_limit_window: d_rate_win(),
        }
    }
}

/// The whole node configuration.
pub struct Config {
    /// Kademlia parameters.
    pub dht: DHTConfig,
    /// Local storage parameters.
    pub storage: StorageConfig,
    /// Transport parameters.
    pub network: NetworkConfig,
    /// Identity and state parameters.
    pub node: NodeConfig,
    /// Popularity engine parameters.
    pub popularity: PopularityConfig,
    /// Security and admission parameters.
    pub security: SecurityConfig,
    /// Log level name.
    pub log_level: String,
    /// Optional log file path.
    pub log_file: Option<String>,
}

impl Default for Config {
    /// The documented defaults throughout.
    fn default() -> (r: Config)
        ensures
            r.dht.k == 20 && r.dht.alpha == 3 && r.dht.bucket_count == 160,
            r.storage.max_storage_size == 10737418240,
            r.network.listen_port == 8468,
            r.node.node_type@ == "full"@,
            r.popularity.popularity_threshold_milli == 7000,
            r.security.rate_limit_requests == 100,
            r.log_level@ == "INFO"@,
            r.log_file is None,
    {
        Config {
            dht: Default::default(),
            storage: Default::default(),
            network: Default::default(),
            node: Default::default(),
            popularity: Default::default(),
            security: Default::default(),
            log_level: d_log_level(),
            log_file: None,
        }
    }
}

} // verus!
