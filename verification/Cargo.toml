[package]
name = "md2_collisions"
version = "0.1.0"
edition = "2021"
publish = false

[dependencies]
md2 = "*"
