[package]
name = "cache_archive"
version = "0.1.0"
edition = "2021"
publish = false

[dependencies]
tar = "0.4"
zstd = "0.13"
petgraph = "0.6"
serde = { version = "1", features = ["derive"] }
