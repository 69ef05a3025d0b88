[package]
name = "queue_variants"
version = "0.1.0"
edition = "2021"
publish = false

[dependencies]
petgraph = "*"
priority-queue = "*"
nonempty = "*"
