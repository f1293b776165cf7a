//! The core of a Raft consensus node: a replicated log over a pluggable
//! store, the three roles of a node, and the message-driven transitions
//! between them, each with a machine-checked contract.

pub mod assoc;
pub mod bytes;
pub mod error;
pub mod raft;
pub mod storage;
