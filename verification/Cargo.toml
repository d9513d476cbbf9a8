[package]
name = "chunk_router"
version = "0.1.0"
edition = "2021"
publish = false

[dependencies]
async-trait = "0.1"
axum = { version = "0.8", default-features = false }
dashmap = "=6.2.1"
futures = "0.3"
http = "=1.5.0"
reqwest = { version = "0.12", default-features = false, features = ["json"] }
serde_json = "=1.0.154"
tokio = { version = "1", features = ["rt-multi-thread", "sync", "time", "macros"] }
tracing = "0.1"
