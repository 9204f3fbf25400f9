[package]
name = "rinha_backend_v2"
version = "0.1.0"
edition = "2021"
publish = false

[dependencies]
flate2 = "1"
memmap2 = "0.9"
serde = { version = "1", features = ["derive"] }
serde_json = "1"
thiserror = "1"
