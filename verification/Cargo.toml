[package]
name = "tig"
version = "0.1.0"
edition = "2021"
publish = false

[dependencies]
anyhow = "1.0"
chrono = "0.4"
dirs = "*"
flate2 = "1.1"
hex = "0.4"
rust-ini = "0.21"
sha1_smol = "1.0"
