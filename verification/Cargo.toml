[package]
name = "amp"
version = "0.1.0"
edition = "2021"
publish = false

[dependencies]
fragment = "=0.3.1"
regex = "=1.13.1"
scribe = "=0.10.0"
git2 = { version = "=0.21.0", default-features = false }
serde = { version = "=1.0.229", features = ["derive"] }
serde_json = "=1.0.154"
unicode-segmentation = "=1.13.3"
anyhow = "=1.0.104"
log = "=0.4.35"
yaml-rust = "=0.4.5"
syntect = { version = "=5.3.0", default-features = false, features = ["default-fancy"] }
