[package]
name = "db"
version = "0.1.0"
edition = "2021"
publish = false

[dependencies]
memmap = "0.7"

[dev-dependencies]
rand = "0.7"
rand_chacha = "0.2"
