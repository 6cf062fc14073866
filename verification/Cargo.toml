[package]
name = "mazes"
version = "0.1.0"
edition = "2021"
publish = false

[dependencies]
image = { version = "0.25", default-features = false, features = ["png"] }
imageproc = { version = "0.25", default-features = false }
num = "0.4"
rand = "0.8"
rand_core = "0.6"
