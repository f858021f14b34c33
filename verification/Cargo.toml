[package]
name = "loose_quad_tree"
version = "0.1.0"
edition = "2021"
publish = false

[dependencies]
cgmath = "0.16"

[dev-dependencies]
rand = "0.4"
