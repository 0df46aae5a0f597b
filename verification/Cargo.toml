[package]
name = "poseidon_merkle"
version = "0.1.0"
edition = "2021"
publish = false

[dependencies]
ark-bn254 = "0.5"
ark-ff = "0.5"
light-poseidon = "0.3"
thiserror = "1"
