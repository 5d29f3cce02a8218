[package]
name = "geosetta"
version = "0.24.0"
edition = "2021"
publish = false

[dependencies]
geoscribe = "*"
