[package]
name = "ultraface"
version = "0.1.0"
edition = "2021"
publish = false

[dependencies]
image = { version = "=0.23.14", default-features = false }
imageproc = { version = "=0.22.0", default-features = false }
tract-onnx = "=0.15.8"
lenna_core = "=0.2.0"
serde = { version = "=1.0.229", features = ["derive"] }
serde_json = "=1.0.154"
wasm-bindgen = "=0.2.129"
console_error_panic_hook = "=0.1.7"
