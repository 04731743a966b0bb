[package]
name = "protohackers"
version = "0.1.0"
edition = "2021"
publish = false

[dependencies]
bytes = "1"
primes = "*"
serde = { version = "1", features = ["derive"] }
serde_json = "1"
tokio = { version = "1", features = ["full"] }
tokio-util = { version = "0.7", features = ["codec"] }
futures = "0.3"
anyhow = "1"
thiserror = "*"
tracing = "0.1"
tracing-subscriber = "0.3"
parking_lot = "0.12"
