[package]
name = "pirate_solitaire"
version = "0.1.0"
edition = "2021"
publish = false

[dependencies]
anyhow = "1"
clap = { version = "4", features = ["derive"] }
itertools = "0.14"
pathfinding = "4"
rand = "0.9"
rand_pcg = "0.9"
thiserror = "2"
