[package]
name = "streaming_stats"
version = "0.1.0"
edition = "2021"
publish = false

[dependencies]
ahash = "0.8"
num-traits = "0.2"
rayon = "1"
