[package]
name = "rope"
version = "0.1.0"
edition = "2021"
publish = false

[dependencies]
anyhow = "1"
bytes = "1"
futures = { version = "0.3", default-features = false, features = ["std"] }
serde = "1"
tokio = { version = "1", default-features = false, features = ["io-util"] }
