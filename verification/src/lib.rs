//! A Kademlia-style distributed hash table core: XOR-metric identifiers,
//! k-bucket routing, a TTL-bound local store, a binary wire codec with
//! request correlation, peer-scoped rate limiting, popularity metrics with
//! age-adaptive ranking, and a replication controller.
use vstd::prelude::*;

pub mod config;
pub mod correlate;
pub mod crypto;
pub mod errors;
pub mod exchanger;
pub mod id;
pub mod keys;
pub mod lookup;
pub mod metrics;
pub mod node_type;
pub mod packet;
pub mod protocol;
pub mod ranking;
pub mod ratelimit;
pub mod replicator;
pub mod routing;
pub mod store;
pub mod wire;

verus! {

} // verus!
