[package]
name = "subset_sequences"
version = "0.1.0"
edition = "2021"
publish = false

[dependencies]
num-integer = "0.1"
rand = "0.8"
