[package]
name = "rgbuilder"
version = "0.1.0"
edition = "2021"
publish = false

[dependencies]
regex = "1"
uuid = { version = "1", features = ["v4"] }
blake3 = "1"
serde = { version = "1", features = ["derive"] }
serde_json = "1"
anyhow = "1"
pulldown-cmark = "*"
memmap2 = "0.9"
rayon = "1"
