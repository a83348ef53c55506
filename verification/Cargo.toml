[package]
name = "quasar"
version = "0.1.0"
edition = "2021"
publish = false

[dependencies]
anyhow = "1"
burn = { version = "0.22", default-features = false }
clap = { version = "4", features = ["derive"] }
indicatif = "0.18"
parquet = { version = "*", default-features = false, features = ["snap", "zstd"] }
rand = "0.9"
rand_chacha = "0.9"
rayon = "1"
serde = { version = "1", features = ["derive"] }
serde_json = "1"
tokenizers = { version = "*", default-features = false, features = ["fancy-regex"] }
