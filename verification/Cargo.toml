[package]
name = "btcrs"
version = "0.1.0"
edition = "2021"
publish = false

[dependencies]
bitcoin = { version = "0.29", features = ["rand"] }
pyo3 = "0.17"
