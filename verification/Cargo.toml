[package]
name = "string_processing"
version = "0.1.0"
edition = "2021"
publish = false

[dependencies]
ahash = "*"
cyclic-poly-23 = "*"
pyo3 = "*"
