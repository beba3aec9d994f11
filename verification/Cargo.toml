[package]
name = "kvs"
version = "0.1.0"
edition = "2021"
publish = false

[dependencies]
byteorder = "=1.5.0"
serde_json = "=1.0.154"
crossbeam-skiplist = "=0.1.3"
serde = { version = "=1.0.229", features = ["derive"] }
serde_bytes = "=0.11.19"
bincode = "=1.3.3"
failure = "=0.1.8"
sled = "=0.34.7"
clap = { version = "=4.6.7", features = ["derive"] }
slog = "=2.8.2"
slog-async = "=2.8.0"
slog-term = "=2.9.2"
crossbeam = "=0.8.5"
crossbeam-channel = "=0.5.17"
rayon = "=1.12.0"
num_cpus = "=1.17.0"
little_raft = "=0.2.0"
bytes = "=1.12.1"
axum = "0.6"
tokio = { version = "1", features = ["rt-multi-thread", "macros", "time", "sync", "net"] }
reqwest = { version = "0.11", default-features = false, features = ["blocking", "json"] }
url-builder = "*"
