[package]
name = "stackify"
version = "0.1.0"
edition = "2021"
publish = false

[dependencies]
anyhow = "=1.0.104"
rustc-hash = "=1.1.0"
smallvec = "=1.16.4"
