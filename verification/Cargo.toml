[package]
name = "psarc"
version = "0.1.0"
edition = "2021"
publish = false

[dependencies]
flate2 = "1"
md-5 = "0.10"
rayon = "1"
crossbeam-channel = "0.5"
memmap2 = "0.9"
walkdir = "2"
