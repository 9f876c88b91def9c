[package]
name = "moggu"
version = "0.1.0"
edition = "2021"

[dependencies]
image = "0.25"
rand = { version = "0.9", features = ["small_rng"] }
