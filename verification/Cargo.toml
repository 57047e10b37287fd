[package]
name = "sudoku"
version = "0.1.0"
edition = "2021"
publish = false

[dependencies]
rand = { version = "=0.7.3", features = ["wasm-bindgen"] }
wasm-bindgen = "=0.2.129"
