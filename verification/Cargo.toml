[package]
name = "rug"
version = "0.1.0"
edition = "2021"
publish = false

[dependencies]
rust-crypto = "0.2.36"
flate2 = "1"
clap = "2"
