[package]
name = "rust_kv"
version = "0.1.0"
edition = "2021"
publish = false

[dependencies]
dashmap = "*"
serde_json = "1"
tokio = { version = "1", features = ["net", "rt-multi-thread", "signal", "sync", "io-util", "io-std", "macros"] }
clap = { version = "4", features = ["derive"] }
env_logger = "*"
log = "0.4"
num_cpus = "1"
sled = "*"
rayon = "1"
