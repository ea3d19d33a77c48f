[package]
name = "tensor4all-core"
version = "0.1.0"
edition = "2021"
publish = false

[dependencies]
anyhow = "1"
faer-traits = "*"
mdarray = "*"
mdarray-linalg = "*"
mdarray-linalg-faer = "*"
num-complex = "0.4"
thiserror = "1"
