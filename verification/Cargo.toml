[package]
name = "lru_core"
version = "0.1.0"
edition = "2021"
publish = false

[dependencies]
mio = "0.5"
slab = "0.1"
