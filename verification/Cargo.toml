[package]
name = "markdown_parser"
version = "0.1.0"
edition = "2021"
publish = false

[dependencies]
serde = "1"
wasm-bindgen = "0.2"
serde-wasm-bindgen = "*"
