[package]
name = "image_compare"
version = "0.1.0"
edition = "2021"
publish = false

[dependencies]
image = { version = "0.24", default-features = false, features = ["png", "jpeg"] }
itertools = "0.12"
rayon = "1"
thiserror = "1"
