[package]
name = "leaf"
version = "0.1.0"
edition = "2021"
publish = false

[dependencies]
anyhow = "1"
async-trait = "0.1"
cidr = "0.2"
futures = "0.3"
lazy_static = "1"
maxminddb = { version = "0.23", features = ["mmap"] }
protobuf = "3"
tokio = { version = "1", default-features = false, features = ["sync", "rt"] }
tracing = "0.1"
trust-dns-proto = { version = "0.23", default-features = false }
