[package]
name = "rslex"
version = "0.1.0"
edition = "2021"
publish = false

[dependencies]
regex = "0.1"
regex-syntax = "0.3"
