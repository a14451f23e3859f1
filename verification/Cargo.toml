[package]
name = "query_cache"
version = "0.1.0"
edition = "2021"
publish = false

[dependencies]
anyhow = "1"
lru = "0.12"
sha2 = "0.10"
tokio = { version = "1", default-features = false, features = ["sync"] }
tracing = "0.1"
