//! Deterministic core of a small two-role blockchain node: a weighted
//! fork-choice tree over block proposals, a bounded per-account mempool,
//! binary codecs for the wire formats, and the state-transition executors
//! for the oracle (fork-choice) and swarm (authenticated key/value) roles.

pub mod codec;
pub mod digest;
pub mod fork_choice_tree;
pub mod mempool;
pub mod oracle_execution;
pub mod oracle_types;
pub mod oracle_wire;
pub mod swarm_execution;
pub mod swarm_types;
