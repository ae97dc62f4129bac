//! Plain configuration records consumed by the scheduler and by the code
//! around it.  Only `NodeSettings` influences the verified core (through its
//! concurrency bound); the rest are carried for the node's collaborators.

use vstd::prelude::*;

verus! {

/// Settings of the node itself.  `max_concurrent_tasks` is the scheduler's
/// per-tick concurrency bound.
#[derive(Debug, Clone)]
pub struct NodeSettings {
    pub stake_amount: u64,
    pub reputation_threshold: u32,
    pub max_concurrent_tasks: usize,
    pub heartbeat_interval_secs: u64,
    pub challenge_timeout_secs: u64,
}

/// Connection parameters for the blockchain-reporting collaborator.
#[derive(Debug, Clone)]
pub struct BlockchainConfig {
    pub rpc_url: String,
    pub chain_id: u64,
    pub contract_address: String,
    pub private_key: String,
    pub gas_limit: u64,
    pub gas_price_gwei: u64,
}

/// Parameters of the peer-to-peer layer.
#[derive(Debug, Clone)]
pub struct NetworkConfig {
    pub listen_port: u16,
    pub bootstrap_peers: Vec<String>,
    pub max_peers: usize,
    pub discovery_interval_secs: u64,
}

/// Local storage parameters.
#[derive(Debug, Clone)]
pub struct StorageConfig {
    pub data_dir: String,
    pub max_db_size_gb: u64,
    pub backup_interval_hours: u64,
}

/// Metrics-export parameters.
#[derive(Debug, Clone)]
pub struct MetricsConfig {
    pub enabled: bool,
    pub port: u16,
    pub export_interval_secs: u64,
}

} // verus!
