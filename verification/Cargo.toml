[package]
name = "ghs_mst"
version = "0.1.0"
edition = "2021"
publish = false

[dev-dependencies]
petgraph = "*"
