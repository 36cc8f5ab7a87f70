[package]
name = "hamilton_snake"
version = "0.1.0"
edition = "2021"
publish = false

[dependencies]
nannou = "0.19"
rand = "=0.8.8"
rayon = "=1.12.0"
