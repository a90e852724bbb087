//! Consensus for small clusters: a multi-slot Paxos state machine, a Raft
//! state machine, and the rules that surround them (storage, framing, the
//! decision log, client retries).
//!
//! Every function states what it returns or changes over mathematical models:
//! a node name is a sequence of characters and a number, a log is a sequence
//! of entries, a protocol is a pure function from state and event to state and
//! messages. Time is a number of milliseconds handed in by the caller.
pub mod client;
pub mod collections;
pub mod config;
pub mod error;
pub mod frame;
pub mod message;
pub mod node;
pub mod node_laws;
pub mod node_progress;
pub mod paxos;
pub mod paxos_cluster;
pub mod paxos_laws;
pub mod paxos_model;
pub mod paxos_progress;
pub mod paxos_protocol;
pub mod protocol;
pub mod quiet_paxos;
pub mod quorum;
pub mod raft;
pub mod raft_cluster;
pub mod raft_laws;
pub mod raft_model;
pub mod raft_progress;
pub mod raft_safety;
pub mod random;
pub mod rows;
pub mod service;
pub mod settings;
pub mod storage;
pub mod text;
pub mod types;
pub mod value;
