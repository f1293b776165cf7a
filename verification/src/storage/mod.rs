//! Storage behind the replicated log.

pub mod log;
