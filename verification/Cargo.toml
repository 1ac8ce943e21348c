[package]
name = "painterly"
version = "0.1.0"
edition = "2021"
publish = false

[dependencies]
image = { version = "=0.25.10", default-features = false, features = ["png", "jpeg", "gif"] }
rand = "=0.8.8"
rand_chacha = "=0.3.1"
clap = { version = "=4.6.7", features = ["derive"] }
base64 = "=0.22.1"
serde = { version = "=1.0.229", features = ["derive"] }
thiserror = "=1.0.69"
uniffi = "=0.28.3"
tract-onnx = "=0.21.19"
kstring = "=2.0.2"
