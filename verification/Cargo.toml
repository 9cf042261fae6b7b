[package]
name = "happy_eyeballs"
version = "0.1.0"
edition = "2021"
publish = false

[dependencies]
async-std = { version = "*", features = ["attributes"] }
futures-concurrency = "*"
futures-time = "*"
