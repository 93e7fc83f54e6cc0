[package]
name = "saorsa_core"
version = "0.1.0"
edition = "2021"
publish = false

[dependencies]
anyhow = "1"
dashmap = "=6.2.1"
futures = "0.3"
libc = "0.2"
postcard = { version = "=1.1.3", features = ["use-std"] }
rand = "=0.8.8"
saorsa-pqc = "=0.5.2"
saorsa-transport = "=0.38.2"
serde = { version = "1", features = ["derive"] }
serde_json = "1"
tempfile = "3"
tokio = { version = "1", features = ["full"] }
tokio-util = "0.7"
tracing = "0.1"
tracing-subscriber = { version = "0.3", features = ["env-filter"] }
uuid = { version = "=1.29.0", features = ["v4"] }
