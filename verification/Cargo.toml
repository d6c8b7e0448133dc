[package]
name = "rust_recipes"
version = "0.1.0"
edition = "2021"
publish = false

[dependencies]
anyhow = "=1.0.104"
thiserror = "=2.0.21"
serde = { version = "=1.0.229", features = ["derive"] }
serde_json = "=1.0.154"
crossbeam-channel = "=0.5.17"
crossbeam-queue = "0.3"
log = "=0.4.35"

[dev-dependencies]
rand = "=0.9.5"
