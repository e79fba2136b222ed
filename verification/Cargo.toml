[package]
name = "erfs"
version = "0.1.0"
edition = "2021"
publish = false

[dependencies]
deflate = "*"
inflate = "*"
