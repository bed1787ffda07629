[package]
name = "tetrust"
version = "0.1.0"
edition = "2021"
publish = false

[dependencies]
rand = "0.8"
serde = { version = "1", features = ["derive"] }
serde_json = "1"
tokio = { version = "1", features = ["full"] }
tokio-tungstenite = "*"
tungstenite = "*"
futures-util = { version = "0.3", features = ["sink"] }
futures-channel = "0.3"
async-channel = "*"
