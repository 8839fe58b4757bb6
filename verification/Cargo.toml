[package]
name = "vigenere"
version = "0.1.0"
edition = "2021"

[dependencies]
serde = "1"
serde_json = "1"
