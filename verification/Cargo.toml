[package]
name = "easy_segmenter"
version = "0.1.0"
edition = "2021"
publish = false

[dependencies]
aho-corasick = "0.7"
regex = "1"
serde = "1"
serde_derive = "1"
toml = "0.5"
