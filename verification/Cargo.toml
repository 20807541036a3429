[package]
name = "tip_prover"
version = "0.1.0"
edition = "2021"
publish = false

[dependencies]
ethers-core = "*"
tiny-keccak = { version = "*", features = ["keccak"] }
