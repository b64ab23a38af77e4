//! Node roles, their resource limits, and the node lifecycle.
use vstd::prelude::*;
use crate::config::Config;

verus! {

/// The role a node plays: seeds keep the consensus ranking, full nodes
/// carry the common load, light and mobile nodes cap their resources.
#[derive(Clone, Copy, Debug, PartialEq, Eq, Structural)]
pub enum NodeType {
    /// High-availability node taking part in the global consensus.
    Seed,
    /// Ordinary node without restrictions.
    Full,
    /// Node capped at one gibibyte of storage.
    Light,
    /// Node capped at a hundred mebibytes and small buckets.
    Mobile,
}

impl NodeType {
    /// The role's name.
    pub fn as_str(&self) -> (r: &'static str)
        ensures
            r@ == spec_type_name(*self),
    {
        match self {
            NodeType::Seed => "seed",
            NodeType::Full => "full",
            NodeType::Light => "light",
            NodeType::Mobile => "mobile",
        }
    }
}

/// The name of each role.
pub open spec fn spec_type_name(t: NodeType) -> Seq<char> {
    match t {
        NodeType::Seed => "seed"@,
        NodeType::Full => "full"@,
        NodeType::Light => "light"@,
        NodeType::Mobile => "mobile"@,
    }
}

/// The role a machine with `free_bytes` of disk can play: at least a
/// hundred gibibytes make a seed, ten a full node, one a light node,
/// anything less a mobile node.
pub fn detect_node_type(free_bytes: u64) -> (r: NodeType)
    ensures
        r == spec_detected_type(free_bytes),
{
    let gb: u64 = 1073741824;
    if free_bytes >= 100 * gb {
        NodeType::Seed
    } else if free_bytes >= 10 * gb {
        NodeType::Full
    } else if free_bytes >= gb {
        NodeType::Light
    } else {
        NodeType::Mobile
    }
}

/// The role for a given amount of free disk space.
pub open spec fn spec_detected_type(free_bytes: u64) -> NodeType {
    if free_bytes >= 107374182400 {
        NodeType::Seed
    } else if free_bytes >= 10737418240 {
        NodeType::Full
    } else if free_bytes >= 1073741824 {
        NodeType::Light
    } else {
        NodeType::Mobile
    }
}

/// Cap a configuration to what the role allows: light nodes store at
/// most one gibibyte, mobile nodes at most a hundred mebibytes with
/// small buckets; seeds and full nodes are unrestricted.
pub fn apply_node_type_limits(config: &mut Config, node_type: NodeType)
    ensures
        node_type == NodeType::Light ==> final(config).storage.max_storage_size == (if old(config).storage.max_storage_size > 1073741824 {
            1073741824u64
        } else {
            old(config).storage.max_storage_size
        }) && final(config).dht.k == old(config).dht.k,
        node_type == NodeType::Mobile ==> final(config).storage.max_storage_size == (if old(config).storage.max_storage_size > 104857600 {
            104857600u64
        } else {
            old(config).storage.max_storage_size
        }) && final(config).dht.k == 10,
        (node_type == NodeType::Seed || node_type == NodeType::Full) ==> final(config).storage.max_storage_size == old(config).storage.max_storage_size && final(config).dht.k
            == old(config).dht.k,
{
    match node_type {
        NodeType::Light => {
            if config.storage.max_storage_size > 1073741824 {
                config.storage.max_storage_size = 1073741824;
            }
        },
        NodeType::Mobile => {
            if config.storage.max_storage_size > 104857600 {
                config.storage.max_storage_size = 104857600;
            }
            config.dht.k = 10;
        },
        NodeType::Seed => {},
        NodeType::Full => {},
    }
}

/// Where a node stands in its life: created, serving, or shut down.
#[derive(Clone, Copy, Debug, PartialEq, Eq, Structural)]
pub enum LifecycleState {
    /// Constructed but not yet started.
    Fresh,
    /// Bound, bootstrapped and serving.
    Running,
    /// Drained and closed; not required to start again.
    Stopped,
}

/// The node's lifecycle: it moves only forward, from fresh through
/// running to stopped.
pub struct Lifecycle {
    /// The current state.
    pub state: LifecycleState,
}

impl Lifecycle {
    /// A freshly constructed node.
    pub fn new() -> (r: Lifecycle)
        ensures
            r.state == LifecycleState::Fresh,
    {
        Lifecycle { state: LifecycleState::Fresh }
    }

    /// Move to running; only a fresh node starts.
    pub fn start(&mut self) -> (r: bool)
        ensures
            r == (old(self).state == LifecycleState::Fresh),
            r ==> final(self).state == LifecycleState::Running,
            !r ==> final(self).state == old(self).state,
    {
        if matches!(self.state, LifecycleState::Fresh) {
            self.state = LifecycleState::Running;
            true
        } else {
            false
        }
    }

    /// Move to stopped; only a running node stops.
    pub fn stop(&mut self) -> (r: bool)
        ensures
            r == (old(self).state == LifecycleState::Running),
            r ==> final(self).state == LifecycleState::Stopped,
            !r ==> final(self).state == old(self).state,
    {
        if matches!(self.state, LifecycleState::Running) {
            self.state = LifecycleState::Stopped;
            true
        } else {
            false
        }
    }

    /// Whether the node is serving.
    pub fn is_running(&self) -> (r: bool)
        ensures
            r == (self.state == LifecycleState::Running),
    {
        matches!(self.state, LifecycleState::Running)
    }
}

} // verus!
