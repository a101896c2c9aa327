[package]
name = "wavelet_trie"
version = "0.1.0"
edition = "2021"
publish = false

[dependencies]
bit-vec = "*"
serde = "1"
serde_derive = "1"
bincode = "1"
