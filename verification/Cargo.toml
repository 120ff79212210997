[package]
name = "brex"
version = "0.1.0"
edition = "2021"
publish = false

[dependencies]
clap = { version = "=4.6.7", features = ["derive"] }
clap-stdin = "=0.8.1"
fst = "=0.4.7"
miette = "=7.6.0"
trie-rs = "*"
xxhash-rust = { version = "=0.8.19", features = ["xxh64"] }
