[package]
name = "trade"
version = "0.1.0"
edition = "2021"
publish = false

[dependencies]
sp-core = { version = "=43.0.0", default-features = false }
parity-scale-codec = { version = "=3.7.5", default-features = false }
