[package]
name = "vector_store"
version = "0.1.0"
edition = "2021"
publish = false

[dependencies]
tree-sitter = "0.20"
matrixmultiply = "0.3"
smol = "1"
futures = "0.3"
