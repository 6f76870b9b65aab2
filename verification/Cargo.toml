[package]
name = "speller"
version = "0.1.0"
edition = "2021"
publish = false

[dependencies]
regex = "1"
