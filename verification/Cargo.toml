[package]
name = "bhtsne"
version = "0.8.0"
edition = "2021"
publish = false

[dependencies]
num-traits = "=0.2.19"
rand = "=0.8.8"
serde = { version = "=1.0.229", features = ["derive"] }
gloo-worker = "=0.5.0"
console_error_panic_hook = "=0.1.7"
thiserror = "=1.0.69"
