[package]
name = "embr_format"
version = "0.1.0"
edition = "2021"
publish = false

[dependencies]
anyhow = "1"
bincode = "1.3"
blake3 = "1"
clap = { version = "4", features = ["derive"] }
filetime = "0.2"
num_cpus = "1"
walkdir = "2"
xz2 = "0.1"
zstd = { version = "0.13", features = ["zstdmt"] }
