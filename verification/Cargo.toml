[package]
name = "rateless_iblt"
version = "0.1.0"
edition = "2021"
publish = false

[dependencies]
blake3 = { version = "1", features = ["pure"] }
libm = "0.2"
zerocopy = { version = "0.8", features = ["derive"] }

[dev-dependencies]
rand_core = "0.9"
rand_xoshiro = "0.7"
