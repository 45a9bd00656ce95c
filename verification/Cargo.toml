[package]
name = "frostbit"
version = "0.1.0"
edition = "2021"
publish = false

[dependencies]
aligned-vec = "*"
bytemuck = "1"
criterion = "0.5"
roaring = "0.11"
