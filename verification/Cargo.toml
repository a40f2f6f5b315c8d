[package]
name = "merge_puzzle"
version = "0.1.0"
edition = "2021"
publish = false

[dependencies]
rand = "*"
anyhow = "*"
clap = { version = "*", features = ["derive"] }
colored = "*"
num_cpus = "*"
rayon = "*"
