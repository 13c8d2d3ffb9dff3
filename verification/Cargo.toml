[package]
name = "l1tv"
version = "1.0.0"
edition = "2021"
publish = false

[dependencies]
ndarray = "0.16"
numpy = "0.24"
pyo3 = "0.24.1"
