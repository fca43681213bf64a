[package]
name = "cubek_attention"
version = "0.1.0"
edition = "2021"
publish = false

[dependencies]
cubecl = { version = "0.11", default-features = false }
half = "2.7"
