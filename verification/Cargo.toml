[package]
name = "prs_codec"
version = "0.1.0"
edition = "2021"
publish = false

[dependencies]
wasm-bindgen = "*"

[dev-dependencies]
ages-prs = "*"
