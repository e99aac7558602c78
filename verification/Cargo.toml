[package]
name = "cecs"
version = "0.1.0"
edition = "2021"
publish = false

[dependencies]
bitvec = "1"
crossbeam-channel = "0.5"
rayon = "1"
