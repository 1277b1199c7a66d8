[package]
name = "block_collection"
version = "0.1.0"
edition = "2021"
publish = false

[dependencies]
parity-codec = "3"
