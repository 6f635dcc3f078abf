[package]
name = "precise_numpy"
version = "0.2.3"
edition = "2021"
publish = false

[dependencies]
rayon = "1"
matrixmultiply = "0.3"
pyo3 = { version = "0.22", features = ["abi3-py310"] }
