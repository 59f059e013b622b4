[package]
name = "m32_stream"
version = "0.1.0"
edition = "2021"
publish = false

[dependencies]
alsa = "0.9"
axum = { version = "0.7", features = ["ws"] }
chrono = "0.4"
futures = "0.3"
futures-util = "0.3"
mdns-sd = "0.11"
reqwest = { version = "0.12", default-features = false, features = ["json"] }
rusqlite = "*"
serde = { version = "1", features = ["derive"] }
serde_json = "1"
serde_yaml = "0.9"
tokio = { version = "1", features = ["full"] }
tokio-rusqlite = "0.5"
tokio-tungstenite = "0.24"
tracing = "0.1"
tracing-subscriber = "0.3"
uuid = { version = "1", features = ["v4"] }
