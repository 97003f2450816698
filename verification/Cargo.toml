[package]
name = "fastring"
version = "0.2.1"
edition = "2021"
publish = false

[dependencies]
xxhash-rust = { version = "0.8", features = ["xxh3"] }
pyo3 = { version = "*", features = ["extension-module"] }
