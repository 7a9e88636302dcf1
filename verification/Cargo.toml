[package]
name = "plonk_setup"
version = "0.1.0"
edition = "2021"
publish = false

[dependencies]
num-bigint = "*"
anyhow = "*"
tokio = { version = "*", features = ["fs", "io-util", "rt", "rt-multi-thread", "macros"] }
