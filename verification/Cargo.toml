[package]
name = "connect_four"
version = "0.1.0"
edition = "2021"
publish = false

[dependencies]
macroquad = { version = "0.4", default-features = false }
rand = { version = "0.8", features = ["small_rng"] }
