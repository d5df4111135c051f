[package]
name = "nums"
version = "0.1.0"
edition = "2021"

[dependencies]
anyhow = "1"
itertools = "0.14"
rand = "0.9"
rayon = "1"
