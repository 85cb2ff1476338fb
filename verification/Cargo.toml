[package]
name = "dzong"
version = "0.1.0"
edition = "2021"
publish = false

[dependencies]
crc32fast = "1"
bytes = "1"
serde = { version = "1", features = ["derive"] }
serde_json = "1"
thiserror = "1"
tracing = "0.1"
tempfile = "3"
rand = "0.8"
rand_chacha = "0.3"
