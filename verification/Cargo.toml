[package]
name = "rune_index"
version = "0.1.0"
edition = "2021"
publish = false

[dependencies]
anyhow = "*"
bitcoincore-rpc = "*"
clap = { version = "*", features = ["derive"] }
dirs = "*"
log = "*"
serde = { version = "*", features = ["derive"] }
