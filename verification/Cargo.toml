[package]
name = "advent_lib"
version = "0.1.0"
edition = "2021"
publish = false

[dependencies]
bit-vec = "*"
clap = { version = "4", features = ["derive"] }
crossbeam = "*"
image = { version = "*", default-features = false, features = ["png"] }
memmap2 = "*"
num-format = "*"
regex = "*"
