[package]
name = "slickbench"
version = "0.1.0"
edition = "2021"
publish = false

[dependencies]
ahash = "0.8"
rand = { version = "0.8", features = ["small_rng"] }
rand_distr = "0.4"
clap = { version = "4", features = ["derive"] }
csv = "1"
serde = { version = "1", features = ["derive"] }
