[package]
name = "sketchy"
version = "0.1.0"
edition = "2021"

[dependencies]
bit-vec = "*"
rand = "0.8"
