[package]
name = "rcvcounter"
version = "0.1.0"
edition = "2021"
publish = false

[dependencies]
zip = "*"
rand = "0.8"
anyhow = "1"
colored = "*"
