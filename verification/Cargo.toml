[package]
name = "tokenmill"
version = "0.1.0"
edition = "2021"
publish = false

[dependencies]
anyhow = "1"
arrow = { version = "=53.4.1", default-features = false }
candle-core = { version = "0.8", default-features = false }
candle-nn = { version = "0.8", default-features = false }
candle-transformers = { version = "0.8", default-features = false }
clap = { version = "4", features = ["derive"] }
crossterm = "0.27"
hf-hub = { version = "0.4", default-features = false, features = ["ureq", "rustls-tls"] }
indicatif = "0.17"
parquet = { version = "=53.4.1", default-features = false, features = ["arrow", "snap"] }
rand = "=0.8.8"
rand_chacha = "=0.3.1"
ratatui = "0.26"
serde = { version = "1", features = ["derive"] }
serde_json = "=1.0.154"
sysinfo = { version = "0.29", default-features = false }
tiktoken-rs = "=0.6.0"
tokenizers = { version = "0.21", default-features = false, features = ["fancy-regex"] }
xxhash-rust = { version = "=0.8.19", features = ["xxh3"] }
