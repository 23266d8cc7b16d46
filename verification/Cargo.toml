[package]
name = "helix_core"
version = "0.1.0"
edition = "2021"
publish = false

[dependencies]
ropey = { version = "1.6", default-features = false, features = ["simd"] }
smallvec = "1.13"
unicode-segmentation = "1.12"
unicode-general-category = "1.0"
