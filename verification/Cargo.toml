[package]
name = "word_grids"
version = "0.1.0"
edition = "2021"
publish = false

[dependencies]
itertools = "*"
crossbeam-channel = "*"
