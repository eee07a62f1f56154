[package]
name = "liteparse"
version = "0.1.0"
edition = "2021"
publish = false

[dependencies]
hayro = "=0.5.0"
kurbo = "0.12"
serde = { version = "1", features = ["derive"] }
serde_json = "1"
