[package]
name = "csearch"
version = "0.1.0"
edition = "2021"
publish = false

[dependencies]
anyhow = "1"
clap = { version = "4", features = ["derive"] }
memchr = "2"
memmap2 = "0.9"
rayon = "1"
regex = "1"
regex-syntax = "0.8"
walkdir = "2"
