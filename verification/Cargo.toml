[package]
name = "repr"
version = "0.1.0"
edition = "2021"
publish = false

[dependencies]
regex-syntax = "0.8"
