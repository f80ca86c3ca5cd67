[package]
name = "paws_engine"
version = "0.1.0"
edition = "2021"
publish = false

[dependencies]
fnv = "=1.0.7"
rayon = "1"
slab = "=0.4.12"
url = "=2.5.8"
