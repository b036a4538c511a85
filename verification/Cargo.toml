[package]
name = "chunkgz"
version = "0.1.0"
edition = "2021"
publish = false

[dependencies]
clap = { version = "4", features = ["derive"] }
flate2 = "1"
indicatif = "0.17"
num_cpus = "1"
rayon = "1"
