[package]
name = "block_game"
version = "0.1.0"
edition = "2021"
publish = false

[dependencies]
rand = "0.8"
beryllium = "0.13"
cgmath = "0.18"
gl = "0.14"
