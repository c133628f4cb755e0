[package]
name = "linestats"
version = "0.1.0"
edition = "2021"
publish = false

[dependencies]
ahash = "*"
bstr = "*"
crossbeam-channel = "*"
fast-float = "*"
hashbrown = "*"
