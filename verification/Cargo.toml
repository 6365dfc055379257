[package]
name = "metal_operators"
version = "0.1.0"
edition = "2021"

[dependencies]
anyhow = "1"
fastrand = "2"
metal = { version = "0.29", default-features = false }
pyo3 = { version = "0.22", features = ["extension-module"] }
