[package]
name = "md5_simd"
version = "0.2.0"
edition = "2021"
publish = false

[dev-dependencies]
md-5 = "0.10"
