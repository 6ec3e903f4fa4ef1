[package]
name = "treemux"
version = "0.5.1"
edition = "2021"
publish = false

[dependencies]
hyper = { version = "0.14", features = ["full"] }
percent-encoding = "2"
futures = "0.3"
tower-layer = "0.3"
tower-service = "0.3"
tracing = "0.1"
log = { version = "0.4", features = ["kv"] }
anyhow = "1"
tokio = { version = "1", features = ["net", "rt"] }
tokio-rustls = "0.22"
hyper-tls = "0.5"
