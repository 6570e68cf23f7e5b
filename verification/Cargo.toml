[package]
name = "tsp_ga"
version = "0.1.0"
edition = "2021"
publish = false

[dependencies]
rand = "0.9"
csv = "1"
clap = { version = "4", features = ["derive"] }
