[package]
name = "scaling"
version = "0.1.0"
edition = "2021"
publish = false

[dependencies]
inventory = "0.3"
libc = "0.2"
