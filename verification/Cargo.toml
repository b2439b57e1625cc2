[package]
name = "edwards_bls12_accel"
version = "0.1.0"
edition = "2021"
publish = false

[dependencies]
ark-ff = "0.5"
ark-ed-on-bls12-377 = "0.5"
num-bigint = "0.4"
serde = { version = "1", features = ["derive"] }

[dev-dependencies]
ark-ec = "0.5"
ark-std = "0.5"
