[package]
name = "there_can_only_be_one"
version = "0.1.0"
edition = "2021"
publish = false

[dependencies]
anyhow = "1"
blake3 = { version = "1", features = ["pure"] }
clap = { version = "4", features = ["derive"] }
clap_complete = "4"
clap_mangen = "0.2"
globset = "0.4"
rayon = "1"
serde = { version = "1", features = ["derive"] }
serde_json = "1"
walkdir = "2"
