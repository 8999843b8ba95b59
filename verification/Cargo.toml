[package]
name = "acbot_edge"
version = "0.1.0"
edition = "2021"
publish = false

[dependencies]
serde = { version = "=1.0.229", features = ["derive"] }
serde_json = "=1.0.154"
tokio = { version = "=1.54.1", features = ["rt", "rt-multi-thread", "macros", "sync", "time"] }
axum = { version = "=0.6.20", features = ["ws", "headers"] }
reqwest = { version = "=0.11.27", default-features = false, features = ["json"] }
log = "=0.4.35"
fast_log = "=1.7.10"
lazy_static = "=1.5.1"
once_cell = "=1.21.4"
toml = "=0.7.8"
serde_yaml = "=0.9.34"
futures = "=0.3.34"
tokio-tungstenite = "=0.20.1"
pyo3 = "=0.19.2"
rbatis = "=4.9.8"
rbs = "=4.8.4"
rbdc-sqlite = "=4.9.5"
kube = { version = "=0.85.0", default-features = false, features = ["client"] }
k8s-openapi = { version = "=0.19.0", default-features = false, features = ["v1_26"] }
regex = "=1.13.1"
metrics = "=0.21.1"
metrics-exporter-prometheus = { version = "=0.12.2", default-features = false, features = ["push-gateway"] }
