[package]
name = "reeg"
version = "0.1.0"
edition = "2021"
publish = false

[dependencies]
sci-rs = "*"
rustfft = "*"
rayon = "*"
