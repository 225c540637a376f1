[package]
name = "ailed_soulsteal"
version = "0.1.0"
edition = "2021"
publish = false

[dependencies]
shakmaty = "0.27"
serde_json = "1"
anyhow = "1"
clap = { version = "4", features = ["derive"] }
zstd = "0.13"
