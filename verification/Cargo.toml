[package]
name = "weighted_rs"
version = "0.2.0"
edition = "2021"
publish = false

[dependencies]
rand = "0.8"
