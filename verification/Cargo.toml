[package]
name = "matched_trading"
version = "0.1.0"
edition = "2021"
publish = false

[dependencies]
rust_decimal = "1"
num-traits = "0.2"
serde = { version = "1", features = ["derive"] }
serde_json = "1"
jsonrpc-http-server = "18"
