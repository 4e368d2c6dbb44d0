[package]
name = "overlapping_wfc"
version = "0.1.0"
edition = "2021"
publish = false

[dependencies]
bit-vec = "*"
ndarray = "*"
rand = "*"
itertools = "*"
num-traits = "*"
image = { version = "*", default-features = false, features = ["png"] }
png = "*"
chrono = "*"
