[package]
name = "game_core"
version = "0.1.0"
edition = "2021"
publish = false

[dependencies]
noise = "0.9"
wasm-bindgen = "0.2"
