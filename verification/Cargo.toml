[package]
name = "py_cyclo_complexity"
version = "0.1.0"
edition = "2021"
publish = false

[dependencies]
tree-sitter = "0.20"
tree-sitter-python = "0.20"
walkdir = "2"
threadpool = "1"
pyo3 = { version = "0.20", features = ["extension-module"] }
