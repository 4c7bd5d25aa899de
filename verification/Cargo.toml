[package]
name = "elid"
version = "0.1.0"
edition = "2021"
publish = false

[dependencies]
data-encoding = "=2.11.1"
blake3 = "=1.8.7"
half = "=2.7.1"
rand = "=0.8.8"
rand_chacha = "=0.3.1"
rand_distr = "=0.4.3"
thiserror = "=1.0.69"
serde = { version = "=1.0.229", features = ["derive"] }
serde_json = "=1.0.154"
safetensors = "=0.4.5"
wasm-bindgen = "=0.2.130"
js-sys = "=0.3.107"
serde-wasm-bindgen = "=0.6.5"
tokenizers = { version = "=0.21.4", default-features = false, features = ["fancy-regex"] }
image = { version = "=0.25.10", default-features = false, features = ["jpeg", "png"] }
tract-onnx = "=0.21.10"
ureq = "=3.5.1"
gloo-net = { version = "=0.6.0", default-features = false, features = ["http"] }
kstring = ">=2.0.0, <2.0.3"
pyo3 = "0.23"
numpy = "0.23"
