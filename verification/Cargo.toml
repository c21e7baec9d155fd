[package]
name = "pyglob"
version = "0.1.0"
edition = "2021"
publish = false

[dependencies]
unicode-segmentation = "1"
pyo3 = { version = "0.20", features = ["extension-module"] }
