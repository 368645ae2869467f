[package]
name = "catalog_search"
version = "0.1.0"
edition = "2021"
publish = false

[dependencies]
regex = "1"
rust-stemmers = "1"
