[package]
name = "pow5_chip"
version = "0.1.0"
edition = "2021"
publish = false

[dependencies]
halo2_proofs = "0.1.0"

[dev-dependencies]
rand = "0.8"
