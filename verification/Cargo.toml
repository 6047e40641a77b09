[package]
name = "blockworld"
version = "0.1.0"
edition = "2021"
publish = false

[dependencies]
anyhow = "1"
bytes = "1"
crossbeam-channel = "0.5"
futures = "0.3"
noise = "0.8"
quinn = "0.8"
rcgen = "0.9"
rustls = { version = "0.20", features = ["dangerous_configuration"] }
spin_sleep = "1"
tokio = { version = "1", features = ["full"] }
tokio-stream = "0.1"
tokio-util = { version = "0.7", features = ["codec"] }
tracing = "0.1"
tracing-subscriber = { version = "0.3", features = ["env-filter"] }
uuid = { version = "1", features = ["v4"] }
