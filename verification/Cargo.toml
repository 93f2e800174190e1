[package]
name = "torrent_combine"
version = "0.1.0"
edition = "2021"
publish = false

[dependencies]
clap = { version = "*", features = ["derive"] }
env_logger = "*"
log = "*"
rayon = "*"
tempfile = "*"
