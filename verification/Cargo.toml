[package]
name = "mkwebfont"
version = "0.1.0"
edition = "2021"
publish = false

[dependencies]
anyhow = "=1.0.104"
bincode = { version = "=2.0.1", features = ["derive"] }
blake3 = "=1.8.7"
roaring = "=0.10.12"
wyrand = { version = "=0.2.1", features = ["wyhash"] }
zstd = "=0.13.4"
unicode-blocks = "0.1"
unic-ucd-category = "0.9"
unic-ucd-block = "0.9"
unicode-properties = "0.1"
