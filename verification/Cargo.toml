[package]
name = "chainvisor_state"
version = "0.1.0"
edition = "2021"

[dependencies]
alloy-eips = { version = "1", default-features = false, features = ["std"] }
alloy-primitives = "=1.7.3"
serde_json = "=1.0.154"
serde = { version = "=1.0.229", features = ["derive"] }
eyre = "=0.6.14"
clap = { version = "=4.6.7", features = ["derive"] }
crossbeam-channel = "=0.5.17"
futures = "=0.3.34"
libc = "=0.2.191"
rayon = "=1.12.0"
reqwest = { version = "=0.12.28", default-features = false }
thiserror = "=2.0.21"
tokio = { version = "=1.54.1", features = ["rt-multi-thread", "macros", "fs", "io-util", "sync", "time", "signal"] }
tokio-stream = "=0.1.19"
tracing = "=0.1.44"
