[package]
name = "wavetile"
version = "0.1.0"
edition = "2021"
publish = false

[dependencies]
rand = { version = "0.8", features = ["small_rng"] }
image = "0.24"
num-complex = "0.4"
rayon = "1"
