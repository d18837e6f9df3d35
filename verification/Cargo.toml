[package]
name = "engine"
version = "0.1.0"
edition = "2021"
publish = false

[dependencies]
smallvec = "1"
rustc-hash = "2"
fumen = "*"
itertools = "*"
