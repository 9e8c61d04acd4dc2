[package]
name = "visioncortex"
version = "0.9.2"
edition = "2021"
publish = false

[dependencies]
flo_curves = "*"
