[package]
name = "hashtree"
version = "0.1.0"
edition = "2021"
publish = false

[dependencies]
blake2 = "0.9"
hex = "*"
clap = { version = "*", features = ["derive"] }
rayon = "*"
walkdir = "*"
