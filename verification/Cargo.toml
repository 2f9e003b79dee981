[package]
name = "lzw_trie"
version = "0.1.0"
edition = "2021"
publish = false

[dependencies]
base64 = "*"
clap = { version = "*", features = ["derive"] }
