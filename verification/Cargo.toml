[package]
name = "route_rs"
version = "0.1.0"
edition = "2021"
publish = false

[dependencies]
anyhow = "1"
clap = { version = "4", features = ["derive"] }
indicatif = "*"
num_cpus = "1"
serde_json = "1"
