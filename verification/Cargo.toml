[package]
name = "lopdf"
version = "0.1.0"
edition = "2021"
publish = false

[dependencies]
rangemap = "*"
thiserror = "*"
rayon = "*"
flate2 = "*"
