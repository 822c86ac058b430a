[package]
name = "quickrows"
version = "0.1.0"
edition = "2021"
publish = false

[dependencies]
chardetng = "*"
encoding_rs = "*"
lru = "*"
memmap2 = "*"
rayon = "*"
