[package]
name = "gap_chunk"
version = "0.1.0"
edition = "2021"
publish = false

[dependencies]
str_indices = "*"
