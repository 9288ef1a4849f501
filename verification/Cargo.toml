[package]
name = "dupfinder"
version = "0.1.0"
edition = "2021"
publish = false

[dependencies]
anyhow = "*"
blake3 = "*"
clap = { version = "*", features = ["derive"] }
indicatif = "*"
rayon = "*"
serde = { version = "*", features = ["derive"] }
serde_json = "*"
sha2 = "*"
xxhash-rust = { version = "*", features = ["xxh3"] }
