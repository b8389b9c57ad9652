[package]
name = "zipkirei"
version = "0.1.0"
edition = "2021"
publish = false

[dependencies]
unicode-normalization = "0.1"
wasm-bindgen = "0.2"
