[package]
name = "boorust"
version = "0.1.0"
edition = "2021"
publish = false

[dependencies]
dashmap = "6"
pyo3 = { version = "0.23", features = ["extension-module", "abi3-py38"] }
rand = "0.8"
rayon = "1"
serde = "1"
serde_json = "1"
