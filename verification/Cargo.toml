[package]
name = "jsonflat"
version = "0.1.0"
edition = "2021"
publish = false

[dependencies]
streaming-iterator = "*"
