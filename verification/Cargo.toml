[package]
name = "theseus"
version = "0.1.0"
edition = "2021"
publish = false

[dependencies]
clarabel = "*"
dyn-stack = "0.10"
faer-core = "0.17"
faer-sparse = "0.17"
faer-svd = "0.17"
ndarray = "*"
