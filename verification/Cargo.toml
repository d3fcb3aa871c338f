[package]
name = "collider"
version = "0.3.1"
edition = "2021"
publish = false

[dependencies]
fnv = "1.0"
