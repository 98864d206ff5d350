[package]
name = "wasm_module"
version = "0.1.0"
edition = "2021"
publish = false

[dependencies]
bumpalo = { version = "3", features = ["collections"] }
