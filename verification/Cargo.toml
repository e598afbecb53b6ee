[package]
name = "dupr"
version = "0.1.0"
edition = "2021"
publish = false

[dependencies]
clap = "2"
twox-hash = { version = "1", default-features = false }
walkdir = "2"
