[package]
name = "calvinfs_demo"
version = "0.1.0"
edition = "2021"
publish = false

[dependencies]
bincode = "1.3"
prost = "0.13"
redb = "3"
serde = { version = "1", features = ["derive"] }
thiserror = "2"
tokio = { version = "1", features = ["rt", "rt-multi-thread", "sync", "time", "macros"] }
tonic = "0.12"
tracing = "0.1"
