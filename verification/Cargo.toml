[package]
name = "rmt"
version = "0.1.2"
edition = "2021"
publish = false

[dependencies]
clap = "=2.34.0"
regex-syntax = "=0.8.11"
rust-ini = { version = "=0.21.3", features = ["inline-comment"] }

[dev-dependencies]
regex = "=1.13.1"
