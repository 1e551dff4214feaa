[package]
name = "gatekeeper"
version = "0.1.0"
edition = "2021"
publish = false

[dependencies]
async-trait = "0.1"
axum = { version = "0.8", default-features = false, features = ["http1", "json", "tokio"] }
dashmap = "6"
http = "1"
http-body-util = "0.1"
humantime = "2"
hyper = { version = "1", features = ["http1"] }
hyper-util = { version = "0.1", features = ["client-legacy", "http1", "tokio"] }
ipnet = "2"
metrics = "0.24"
metrics-exporter-prometheus = { version = "0.16", default-features = false }
serde = { version = "1", features = ["derive"] }
serde_json = "1"
thiserror = "2"
tokio = { version = "1", features = ["macros", "net", "rt-multi-thread", "sync", "time"] }
toml = "0.8"
tower = { version = "0.5", features = ["util"] }
tower-http = { version = "0.6", features = ["trace"] }
tracing = "0.1"
