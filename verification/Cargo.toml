[package]
name = "geocoder"
version = "0.1.0"
edition = "2021"
publish = false

[dependencies]
axum = "0.7"
memmap2 = "0.9"
s2 = "0.0.12"
serde = { version = "1", features = ["derive"] }
serde_json = "1"
tantivy = "0.22"
tokio = { version = "1", features = ["full"] }
