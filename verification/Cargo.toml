[package]
name = "talos"
version = "0.1.0"
edition = "2021"
publish = false

[dependencies]
anyhow = "1"
bytemuck = "1"
half = "2"
memmap2 = "0.9"
metal = "0.29"
rand = "0.8"
rayon = "1"
