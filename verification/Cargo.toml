[package]
name = "selfplay"
version = "0.1.0"
edition = "2021"
publish = false

[dependencies]
half = "2"
indexmap = { version = "2", features = ["serde"] }
numpy = "0.23"
pyo3 = { version = "0.23", features = ["extension-module", "abi3-py39"] }
rand = "0.8"
rand_distr = "0.4"
serde = { version = "1", features = ["derive"] }
serde_json = "1"
tch = { version = "0.23", features = ["doc-only"] }
