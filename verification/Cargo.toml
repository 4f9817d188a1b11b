[package]
name = "floodfile"
version = "0.1.0"
edition = "2021"
publish = false

[dependencies]
crossbeam = "*"
cursive = "*"
lz4_flex = "*"
md5 = "*"
pnet = "*"
rand = "*"
