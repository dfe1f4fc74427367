[package]
name = "graph_safe_compare"
version = "0.1.0"
edition = "2021"
publish = false

[dependencies]
wyhash = "0.5"
