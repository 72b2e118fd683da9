[package]
name = "secret_store"
version = "0.1.0"
edition = "2021"
publish = false

[dependencies]
blake2 = "0.10"
chacha20 = "0.9"
rand = "0.8"
rpassword = "7"
