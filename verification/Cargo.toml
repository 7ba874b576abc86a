[package]
name = "amanita"
version = "0.1.0"
edition = "2021"
publish = false

[dependencies]
axum = { version = "0.6", features = ["ws"] }
tokio = { version = "1", features = ["full"] }
tokio-tungstenite = "0.20"
futures-util = "0.3"
url = "2"
clap = { version = "4", features = ["derive"] }
env_logger = "0.10"
log = "0.4"
