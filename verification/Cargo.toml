[package]
name = "ra_analysis"
version = "0.1.0"
edition = "2021"
publish = false

[dependencies]
ra_syntax = "=0.1.0"
relative-path = "0.4.0"
rustc-hash = "1.0"
salsa = "0.7.0"
