[package]
name = "slack_channel"
version = "0.1.0"
edition = "2021"
publish = false

[dependencies]
anyhow = "1"
async-trait = "0.1"
chrono = { version = "0.4", default-features = false, features = ["clock", "std"] }
futures-util = { version = "0.3", default-features = false, features = ["std", "sink"] }
reqwest = { version = "0.12", default-features = false, features = ["json"] }
serde_json = "1"
tokio = { version = "1", features = ["sync", "time", "rt"] }
tokio-tungstenite = { version = "0.26", default-features = false, features = ["connect"] }
tracing = "0.1"
