[package]
name = "math_lib"
version = "0.1.0"
edition = "2021"
publish = false

[dependencies]
num-traits = "0.2"
rand = "0.8"
image = { version = "0.25", default-features = false, features = ["png"] }
