[package]
name = "wfc_terrain"
version = "0.1.0"
edition = "2021"
publish = false

[dependencies]
rand = "0.8"
rand_chacha = "0.3"
itertools = "0.10"
clap = { version = "3", features = ["derive"] }
