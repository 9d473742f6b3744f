[package]
name = "matmul"
version = "0.1.0"
edition = "2021"
publish = false

[dependencies]
matrixmultiply = "0.3"
