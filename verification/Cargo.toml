[package]
name = "module_arena"
version = "0.1.0"
edition = "2021"
publish = false

[dependencies]
sp-core = "*"
primitive-types = { version = "*", features = ["codec"] }
parity-scale-codec = "*"
