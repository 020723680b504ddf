[package]
name = "iris"
version = "0.1.0"
edition = "2021"
publish = false

[dependencies]
burn = { version = "0.16.1", default-features = false, features = ["std"] }
image = { version = "0.25.10", default-features = false, features = ["png"] }
rayon = "1.12.0"
safetensors = "0.8.0"
thiserror = "2.0.21"
