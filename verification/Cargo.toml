[package]
name = "hilbert_in_cartesian"
version = "0.1.0"
edition = "2021"
publish = false

[dependencies]
glam = "*"
