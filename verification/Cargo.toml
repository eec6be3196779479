[package]
name = "roomie"
version = "0.1.0"
edition = "2021"
publish = false

[dependencies]
axum = "=0.7.9"
bincode = "=1.3.3"
bytes = "=1.12.1"
dashmap = "6"
futures = "=0.3.34"
parking_lot = "=0.12.5"
rand = "=0.8.8"
serde = { version = "=1.0.229", features = ["derive"] }
serde_json = "=1.0.154"
tokio = { version = "=1.54.1", features = ["rt-multi-thread", "macros", "net", "sync", "time", "signal"] }
tokio-tungstenite = "=0.24.0"
tokio-util = { version = "=0.7.20", features = ["codec"] }
unicase = "=2.10.0"
