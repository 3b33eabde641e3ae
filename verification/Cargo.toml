[package]
name = "dns_collect"
version = "0.1.0"
edition = "2021"
publish = false

[dependencies]
trust-dns-proto = { version = "0.20", default-features = false, features = ["serde-config"] }
serde = { version = "1", features = ["derive"] }
serde_json = "1"
bincode = "1"
csv = "1"
chrono = "0.4"
