[package]
name = "neo4j-graph-viz"
version = "0.1.0"
edition = "2021"
publish = false

[dependencies]
anyhow = "1"
axum = "0.8"
neo4rs = "0.8"
nucleo-matcher = "0.3"
rayon = "1"
reqwest = { version = "0.12", default-features = false, features = ["json", "rustls-tls"] }
serde = { version = "1", features = ["derive"] }
serde_json = "1"
tokio = { version = "1", features = ["full"] }
tower-http = { version = "0.6", features = ["compression-full", "fs"] }
tracing = "0.1"
tracing-subscriber = "0.3"
