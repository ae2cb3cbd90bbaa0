[package]
name = "memflow_py"
version = "0.1.0"
edition = "2021"
publish = false

[dependencies]
indexmap = "1.9"
memflow = "0.2"
pyo3 = { version = "0.17", features = ["abi3-py37", "extension-module"] }
