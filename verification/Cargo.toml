[package]
name = "rhmap"
version = "0.1.0"
edition = "2021"
publish = false

[dependencies]
rand = "*"
nix = { version = "*", features = ["fs", "mman"] }
cast = "*"
lazy_static = "*"
