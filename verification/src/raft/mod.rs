//! The Raft core: entries and their encoding, the replicated log, messages,
//! and the node with its three roles.

pub mod cluster;
pub mod codec;
pub mod completeness;
pub mod log;
pub mod matching;
pub mod message;
pub mod node;
