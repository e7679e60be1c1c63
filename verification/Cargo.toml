[package]
name = "mpodol"
version = "0.1.0"
edition = "2021"
publish = false

[dependencies]
serde = { version = "1.0.210", features = ["derive"] }
serde_json = "1.0.128"
