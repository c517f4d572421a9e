[package]
name = "voxelhex"
version = "0.1.0"
edition = "2021"
publish = false

[dependencies]
bendy = "=0.3.3"
bimap = "*"
