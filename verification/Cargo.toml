[package]
name = "rsort"
version = "0.1.0"
edition = "2021"
publish = false

[dependencies]
hashbrown = "*"
anyhow = "*"
clap = { version = "*", features = ["derive"] }
indicatif = "*"
num_cpus = "*"
