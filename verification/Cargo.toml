[package]
name = "scouting_data_compression"
version = "0.1.0"
edition = "2021"
publish = false

[dependencies]
anyhow = "1"
csv = "1"
image = "0.25"
serde = { version = "1", features = ["derive"] }
serde_json = "1"
zstd = "0.13"
