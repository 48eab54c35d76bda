[package]
name = "diffgen"
version = "0.1.0"
edition = "2021"
publish = false

[dependencies]
similar = "2"
libc = "0.2"
