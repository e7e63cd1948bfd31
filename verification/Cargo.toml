[package]
name = "rust_poker"
version = "0.2.0"
edition = "2021"
publish = false

[dev-dependencies]
rand = { version = "0.7", features = ["small_rng"] }
