[package]
name = "mini_bitcask"
version = "0.1.0"
edition = "2021"
publish = false

[dependencies]
fs4 = "*"
tempfile = "*"
