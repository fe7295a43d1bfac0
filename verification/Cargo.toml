[package]
name = "kernel"
version = "0.1.0"
edition = "2021"
publish = false

[dependencies]
base64 = "=0.22.1"
hex = "=0.4.3"
rand = "=0.9.5"
pathmap = { version = "=0.2.2", default-features = false }
