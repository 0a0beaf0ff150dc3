[package]
name = "build_orders"
version = "0.1.0"
edition = "2021"
publish = false

[dependencies]
serde = { version = "1", features = ["derive"] }
serde_json = "1"
csv = "1"
sha256 = { version = "1", default-features = false }
wasm-bindgen = "0.2"
console_error_panic_hook = "0.1"
