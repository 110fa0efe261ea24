[package]
name = "sgraph"
version = "0.1.0"
edition = "2021"
publish = false

[dependencies]
fgf = "=1.2.1"
gfm = "=1.0.1"
