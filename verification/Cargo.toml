[package]
name = "render_core"
version = "0.1.0"
edition = "2021"
publish = false

[dependencies]
rand = "0.9"
rand_chacha = "0.9"
nalgebra = "0.33"
anyhow = "1"
image = { version = "0.25", default-features = false, features = ["png"] }
