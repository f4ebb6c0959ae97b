[package]
name = "bingo_gen"
version = "0.1.0"
edition = "2021"
publish = false

[dependencies]
image = "*"
imageproc = "*"
rusttype = "*"
