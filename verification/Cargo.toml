[package]
name = "eggine"
version = "0.1.0"
edition = "2021"
publish = false

[dependencies]
clap = { version = "=4.6.7", features = ["derive"] }
rand = "=0.8.8"
toml = "=0.8.23"
walkdir = "=2.5.0"
zstd = "=0.13.4"
