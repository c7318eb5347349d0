[package]
name = "fractal_flames"
version = "0.1.0"
edition = "2021"
publish = false

[dependencies]
num-bigint = "0.4"
num-traits = "0.2"
serde = { version = "1", features = ["derive"] }
serde_json = "1"
ndarray = "*"
image = { version = "*", default-features = false, features = ["png"] }
