[package]
name = "tkom"
version = "0.1.0"
edition = "2021"
publish = false

[dependencies]
read_char = "*"
thiserror = "*"
