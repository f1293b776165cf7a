[package]
name = "raft_core"
version = "0.1.0"
edition = "2021"
publish = false

[dependencies]
log = "0.4"
tokio = { version = "1", default-features = false, features = ["sync", "rt", "time", "macros"] }
