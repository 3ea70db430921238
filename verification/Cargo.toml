[package]
name = "gkr_sumcheck"
version = "0.1.0"
edition = "2021"
publish = false

[dependencies]
ark-ff = "0.4"
ark-poly = "0.4"
ark-crypto-primitives = { version = "0.4", features = ["sponge"] }
ark-bls12-381 = { version = "0.4", default-features = false, features = ["scalar_field"] }
ark-std = "0.4"
