[package]
name = "savegame_reader"
version = "0.1.0"
edition = "2021"
publish = false

[dependencies]
xz2 = "*"
serde = "*"
serde_json = "*"
wasm-bindgen = "*"
console_error_panic_hook = "*"
