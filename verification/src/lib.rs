//! Peer monitoring configuration and a verified model of the state Merkle
//! node database: its node store, its caches, and the reads and writes that
//! the Jellyfish Merkle tree makes through it.

pub mod peer_monitoring_config;
pub mod node_type;
pub mod node_store;
pub mod node_cache;
pub mod schema_db;
pub mod state_merkle_db;
pub mod tree_laws;
