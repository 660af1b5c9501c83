[package]
name = "the_third_sloppening"
version = "0.1.0"
edition = "2021"
publish = false

[dependencies]
anyhow = "1"
memchr = "2"
memmap2 = "0.9"
pollster = "0.3"
rayon = "1"
simdutf8 = "0.1"
