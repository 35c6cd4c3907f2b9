[package]
name = "rayon_adaptive"
version = "0.1.0"
edition = "2021"
publish = false

[dependencies]
rayon = "1"
smallvec = "1"
rand = "0.8"
crossbeam = "0.8"
time = "0.1"
