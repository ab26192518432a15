[package]
name = "additive_ntt"
version = "0.1.0"
edition = "2021"
publish = false

[dependencies]
p3-util = "=0.8.0"

[dev-dependencies]
rand = "=0.8.8"
