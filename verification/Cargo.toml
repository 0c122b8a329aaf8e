[package]
name = "patterns"
version = "0.1.0"
edition = "2021"
publish = false

[dependencies]
clap = "2"
fnv = "1"
rayon = "1"
