[package]
name = "quoin"
version = "0.1.0"
edition = "2021"
publish = false

[dependencies]
rustc-hash = "*"
pco = "*"
rayon = "*"
arrow-array = "*"
arrow-buffer = "*"
arrow-schema = "*"
