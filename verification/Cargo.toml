[package]
name = "rust_ocr_transformer"
version = "0.2.2"
edition = "2021"
publish = false

[dependencies]
image = { version = "=0.25.10", default-features = false, features = ["png", "jpeg"] }
tract-onnx = "=0.21.19"
clap = { version = "=4.6.7", features = ["derive"] }
serde = { version = "=1.0.229", features = ["derive"] }
serde_json = "=1.0.154"
strsim = "=0.11.1"
thiserror = "=1.0.69"
pyo3 = { version = "=0.22.6", features = ["abi3-py39"] }
kstring = ">=2.0.0, <2.0.2"
