[package]
name = "tidy_tree"
version = "0.1.0"
edition = "2021"
publish = false

[dependencies]
tinyset = "*"
svg = "*"

[dev-dependencies]
rand = "0.8"
