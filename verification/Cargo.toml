[package]
name = "array_ops"
version = "0.1.0"
edition = "2021"
publish = false

[dependencies]
rand_core = "0.5.1"
rand_xoshiro = "0.4.0"
