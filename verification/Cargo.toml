[package]
name = "kudzu_bft"
version = "0.1.0"
edition = "2021"
publish = false

[dependencies]
sha2 = "0.10"
rs_merkle = "1"
reed-solomon-erasure = "6"
serde = { version = "1", features = ["derive"] }
bincode = "1"
clap = { version = "4", features = ["derive"] }
tokio = { version = "1", features = ["rt-multi-thread", "macros", "net", "time"] }
log = "0.4"
env_logger = "0.11"
hex = "0.4"
