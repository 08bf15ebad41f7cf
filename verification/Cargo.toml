[package]
name = "live"
version = "0.1.0"
edition = "2021"
publish = false

[dependencies]
axum = { version = "0.7", default-features = false }
futures = "0.3"
serde_json = "1"
tokio = { version = "1", features = ["rt-multi-thread", "sync", "time"] }
tokio-stream = "0.1"
tower-http = { version = "0.5", default-features = false, features = ["cors"] }
tracing = "0.1"
