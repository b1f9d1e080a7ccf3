[package]
name = "ggufkit"
version = "0.1.0"
edition = "2021"
publish = false

[dependencies]
ggus = "*"
half = "*"
indexmap = "*"
memmap2 = "*"
