[package]
name = "reed_muller"
version = "0.1.0"
edition = "2021"
publish = false

[dependencies]
rand = "0.8"
rand_chacha = "0.3"
clap = { version = "4", features = ["derive"] }
cursive = "*"
charming = "*"
open = "*"
rfd = "*"
magick_rust = "*"
