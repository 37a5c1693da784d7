[package]
name = "edgeproxy"
version = "0.1.0"
edition = "2021"
publish = false

[dependencies]
axum = "0.7"
clap = { version = "4", features = ["derive"] }
dotenvy = "0.15"
http = "1"
hyper-util = { version = "0.1", features = ["client", "client-legacy", "http1", "tokio"] }
metrics = "0.24"
metrics-exporter-prometheus = { version = "0.16", default-features = false }
opentelemetry = "0.27"
opentelemetry-otlp = { version = "0.27", features = ["grpc-tonic"] }
opentelemetry_sdk = { version = "0.27", features = ["rt-tokio"] }
pin-project-lite = "0.2"
serde = { version = "1", features = ["derive"] }
serde_yaml_ng = "0.10"
tokio = { version = "1", features = ["full"] }
tower = "0.5"
tracing = "0.1"
tracing-opentelemetry = "0.28"
tracing-subscriber = { version = "0.3", features = ["env-filter", "json"] }
uuid = { version = "1", features = ["v4"] }
