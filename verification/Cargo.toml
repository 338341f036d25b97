[package]
name = "rustengra"
version = "0.1.0"
edition = "2021"
publish = false

[dependencies]
rustc-hash = "2"
pyo3 = "0.23"
