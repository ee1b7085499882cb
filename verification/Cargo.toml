[package]
name = "sudoku_engine"
version = "0.1.0"
edition = "2021"
publish = false

[dependencies]
rand = "=0.8.8"
near-sdk = { version = "=5.15.1", features = ["non-contract-usage", "legacy"] }
