[package]
name = "msgpack_lazer_api"
version = "0.1.0"
edition = "2021"
publish = false

[dependencies]
chrono = { version = "0.4", default-features = false }
pyo3 = { version = "0.25", features = ["chrono", "extension-module", "abi3-py39"] }
rmp = "0.8"
