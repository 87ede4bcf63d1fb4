[package]
name = "decimal75"
version = "0.1.0"
edition = "2021"
publish = false

[dependencies]
num-bigint = "*"
serde = { version = "*", features = ["derive"] }
