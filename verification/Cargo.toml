[package]
name = "flax"
version = "0.1.0"
edition = "2021"
publish = false

[dependencies]
atomic_refcell = "*"
once_cell = "*"

[dev-dependencies]
itertools = "*"
