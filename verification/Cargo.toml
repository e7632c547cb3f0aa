[package]
name = "clade"
version = "0.1.0"
edition = "2021"
publish = false

[dependencies]
anyhow = "=1.0.104"
bytemuck = "=1.25.2"
clap = { version = "=4.6.7", features = ["derive"] }
faerie = "=0.16.0"
serde = { version = "=1.0.229", features = ["derive"] }
target-lexicon = "=0.11.2"
toml = "=1.1.8"
