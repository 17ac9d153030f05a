[package]
name = "pr1cs"
version = "0.1.0"
edition = "2021"
publish = false

[dependencies]
ark-bn254 = "0.5"
ark-ec = "0.5"
ark-ff = "0.5"
ark-poly = "0.5"
ark-serialize = "0.5"
blake3 = { version = "1", features = ["pure"] }
rand = "0.8"
rs_merkle = "1"
