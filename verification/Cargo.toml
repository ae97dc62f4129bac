[package]
name = "dagshield"
version = "0.1.0"
edition = "2021"
publish = false

[dependencies]
dashmap = "*"
blake3 = "*"
chrono = "*"
rayon = "*"
