//! Error taxonomy of the library.
use vstd::prelude::*;

verus! {

/// Errors of the distributed hash table logic.
#[derive(Clone, Copy, Debug, PartialEq, Eq, Structural)]
pub enum DHTError {
    /// The requested node could not be found.
    NodeNotFound,
    /// The requested key holds no value anywhere reachable.
    ValueNotFound,
    /// An unspecified DHT failure.
    General,
}

/// Errors of the local store and of replication.
#[derive(Clone, Copy, Debug, PartialEq, Eq, Structural)]
pub enum StorageError {
    /// The configured byte budget would be exceeded.
    StorageFull,
    /// Data could not be copied to enough peers.
    ReplicationError,
    /// An unspecified storage failure.
    General,
}

/// Errors of transport and admission control.
#[derive(Clone, Copy, Debug, PartialEq, Eq, Structural)]
pub enum NetworkError {
    /// No configured bootstrap peer answered.
    BootstrapError,
    /// A sliding-window request cap was exceeded.
    RateLimitError,
    /// An unspecified network failure.
    General,
}

/// Errors of integrity checking.
#[derive(Clone, Copy, Debug, PartialEq, Eq, Structural)]
pub enum SecurityError {
    /// A signature did not verify.
    InvalidSignature,
    /// An unspecified security failure.
    General,
}

/// The root error type, wrapping each subsystem's errors.
#[derive(Clone, Copy, Debug, PartialEq, Eq, Structural)]
pub enum RhizomeError {
    /// A DHT failure.
    Dht(DHTError),
    /// A storage failure.
    Storage(StorageError),
    /// A network failure.
    Network(NetworkError),
    /// A security failure.
    Security(SecurityError),
    /// An unknown node type was named.
    InvalidNodeType,
}

impl DHTError {
    /// A short description of the error.
    pub fn message(&self) -> (r: &'static str)
        ensures
            r@.len() > 0,
    {
        proof {
            reveal_strlit("Node not found");
            reveal_strlit("Value not found in DHT");
            reveal_strlit("General DHT error");
        }
        match self {
            DHTError::NodeNotFound => "Node not found",
            DHTError::ValueNotFound => "Value not found in DHT",
            DHTError::General => "General DHT error",
        }
    }
}

impl StorageError {
    /// A short description of the error.
    pub fn message(&self) -> (r: &'static str)
        ensures
            r@.len() > 0,
    {
        proof {
            reveal_strlit("Storage full");
            reveal_strlit("Replication error");
            reveal_strlit("General storage error");
        }
        match self {
            StorageError::StorageFull => "Storage full",
            StorageError::ReplicationError => "Replication error",
            StorageError::General => "General storage error",
        }
    }
}

impl NetworkError {
    /// A short description of the error.
    pub fn message(&self) -> (r: &'static str)
        ensures
            r@.len() > 0,
    {
        proof {
            reveal_strlit("Bootstrap process failed");
            reveal_strlit("Rate limit exceeded");
            reveal_strlit("General network error");
        }
        match self {
            NetworkError::BootstrapError => "Bootstrap process failed",
            NetworkError::RateLimitError => "Rate limit exceeded",
            NetworkError::General => "General network error",
        }
    }
}

impl SecurityError {
    /// A short description of the error.
    pub fn message(&self) -> (r: &'static str)
        ensures
            r@.len() > 0,
    {
        proof {
            reveal_strlit("Invalid signature");
            reveal_strlit("General security error");
        }
        match self {
            SecurityError::InvalidSignature => "Invalid signature",
            SecurityError::General => "General security error",
        }
    }
}

impl RhizomeError {
    /// A short description of the error.
    pub fn message(&self) -> (r: &'static str)
        ensures
            r@.len() > 0,
    {
        proof {
            reveal_strlit("Invalid node type");
        }
        match self {
            RhizomeError::Dht(e) => e.message(),
            RhizomeError::Storage(e) => e.message(),
            RhizomeError::Network(e) => e.message(),
            RhizomeError::Security(e) => e.message(),
            RhizomeError::InvalidNodeType => "Invalid node type",
        }
    }
}

} // verus!
