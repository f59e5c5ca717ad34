[package]
name = "bulk_ingest"
version = "0.1.0"
edition = "2021"
publish = false

[dependencies]
actix-web = { version = "4", default-features = false }
anyhow = "1"
arrow-schema = "*"
log = "0.4"
memchr = "2"
rayon = "1"
serde_json = "1"
simd-json = "*"
tokio = { version = "1", features = ["rt"] }
tracing = "0.1"
