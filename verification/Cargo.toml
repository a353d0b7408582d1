[package]
name = "capburn"
version = "0.1.1"
edition = "2021"
publish = false

[dependencies]
base64 = "=0.22.1"
burn = { version = "=0.21.0", default-features = false, features = ["ndarray", "autodiff"] }
burn-core = { version = "=0.21.0", default-features = false, features = ["std"] }
clap = { version = "=4.6.7", features = ["derive"] }
image = { version = "=0.25.10", default-features = false, features = ["bmp", "gif", "jpeg", "png", "webp"] }
rand = "=0.10.3"
serde = { version = "=1.0.229", features = ["derive"] }
serde_json = "=1.0.154"
