[package]
name = "rayon_hash"
version = "0.1.0"
edition = "2021"
publish = false

[dependencies]
num_cpus = "1"
rayon = "1"

[dev-dependencies]
rand = "0.8"
