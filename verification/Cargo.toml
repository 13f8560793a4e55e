[package]
name = "shen_nbt"
version = "0.6.0"
edition = "2021"
publish = false

[dependencies]
simd_cesu8 = "*"
serde = { version = "1", features = ["derive"] }
