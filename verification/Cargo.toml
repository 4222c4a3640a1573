[package]
name = "raft_log_store"
version = "0.1.0"
edition = "2021"
publish = false

[dependencies]
sled = "=0.34.7"
openraft = { version = "=0.9.25", features = ["storage-v2"] }
tokio = { version = "=1.53.2", features = ["macros", "rt-multi-thread"] }
