[package]
name = "sub_account_store"
version = "0.1.0"
edition = "2021"
publish = false

[dependencies]
sparse-merkle-tree = { version = "*", features = ["blake2b"] }
blake2b-rs = "*"
ckb-rocksdb = "*"
jsonrpsee = { version = "*", features = ["server", "macros"] }
tokio = { version = "*", features = ["rt-multi-thread", "macros"] }
clap = { version = "*", features = ["derive"] }
env_logger = "*"
log = "*"
anyhow = "*"
futures = "*"
serde = { version = "*", features = ["derive"] }
serde_with = { version = "*", features = ["hex"] }
rayon = "*"
