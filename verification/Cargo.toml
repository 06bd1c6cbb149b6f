[package]
name = "nim-proxy"
version = "0.5.0"
edition = "2021"
publish = false

[dependencies]
axum = "0.8"
bytes = "1"
dotenvy = "0.15"
futures-util = "0.3"
getrandom = "0.2"
hmac = "0.12"
metrics = "0.24"
metrics-exporter-prometheus = { version = "0.18", default-features = false }
reqwest = { version = "0.12", default-features = false, features = ["rustls-tls", "stream"] }
serde = { version = "1", features = ["derive"] }
serde_json = "1"
sha2 = "0.10"
subtle = "2"
tokio = { version = "1", features = ["macros", "net", "rt-multi-thread", "signal", "sync", "time"] }
tokio-stream = "0.1"
tracing = "0.1"
tracing-subscriber = { version = "0.3", features = ["env-filter"] }
