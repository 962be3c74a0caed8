[package]
name = "p3_poseidon2_cuda"
version = "0.1.0"
edition = "2021"
publish = false

[dependencies]
p3-baby-bear = "0.5"
p3-commit = "0.5"
p3-field = "0.5"
p3-matrix = "0.5"
p3-symmetric = "0.5"
p3-util = "0.5"
thiserror = "2"

[dev-dependencies]
p3-merkle-tree = "0.5"
rand = "0.8"
