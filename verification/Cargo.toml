[package]
name = "binius64"
version = "0.1.0"
edition = "2021"
publish = false

[dependencies]
bytes = "1"
itertools = "0.14"
