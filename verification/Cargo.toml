[package]
name = "rf-engine"
version = "0.1.0"
edition = "2021"
publish = false

[dependencies]
napi = "*"
napi-derive = "*"
p1812 = "*"
rayon = "*"
