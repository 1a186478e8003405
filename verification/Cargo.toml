[package]
name = "rs_pricing"
version = "0.1.0"
edition = "2021"
publish = false

[dependencies]
bit-set = "0.5"
pyo3 = "0.20"
