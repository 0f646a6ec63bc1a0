[package]
name = "epicycles"
version = "0.1.0"
edition = "2021"
publish = false

[dev-dependencies]
num-complex = "=0.4.6"
