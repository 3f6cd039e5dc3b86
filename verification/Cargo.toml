[package]
name = "smg"
version = "0.1.0"
edition = "2021"
publish = false

[dependencies]
regex = "=1.13.1"
serde_json = { version = "=1.0.154", features = ["preserve_order"] }
http = "=1.5.0"
rand = "0.9"
serde = { version = "1", features = ["derive"] }
async-trait = "0.1"
axum = { version = "0.8", default-features = false, features = ["http1", "tokio"] }
futures = "0.3"
metrics-exporter-prometheus = { version = "0.17", default-features = false }
reqwest = { version = "0.12", default-features = false, features = ["json"] }
tokio = { version = "1", features = ["full"] }
tracing = "0.1"
