[package]
name = "pathfind"
version = "0.1.0"
edition = "2021"
publish = false

[dependencies]
priority-queue = "*"
ndarray = "*"
ndarray-linalg = "*"
rand = "*"
