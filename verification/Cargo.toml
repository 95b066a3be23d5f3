[package]
name = "potions"
version = "0.1.0"
edition = "2021"
publish = false

[dependencies]
atomic_float = "*"
clap = { version = "*", features = ["derive"] }
rayon = "*"
regex = "*"
