[package]
name = "mastermind"
version = "0.1.0"
edition = "2021"
publish = false

[dependencies]
anyhow = "1"
colored = "2"
rand = "0.8"
