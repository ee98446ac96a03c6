[package]
name = "mesh_batcher"
version = "0.1.0"
edition = "2021"
publish = false

[dependencies]
gdnative = "0.9"
lazy_static = "1"
