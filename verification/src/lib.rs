pub mod bytes;
pub mod checksum;
pub mod client;
pub mod client_laws;
pub mod cluster;
pub mod cluster_commit;
pub mod cluster_invariant;
pub mod cluster_laws;
pub mod config;
pub mod election_laws;
pub mod kv;
pub mod log_laws;
pub mod message;
pub mod node;
pub mod node_laws;
pub mod quorum;
pub mod raft_laws;
pub mod raft_log;
pub mod replication_laws;
pub mod state;
pub mod text;
pub mod timing;
pub mod wal;
pub mod wal_laws;
pub mod wire;
