[package]
name = "cfg_ssa"
version = "0.1.0"
edition = "2021"
publish = false

[dependencies]
num-bigint-dig = "0.8"
num-bigint = "0.4"
serde = { version = "1", features = ["derive"] }
serde_json = "1"
