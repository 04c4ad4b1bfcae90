[package]
name = "convertx"
version = "0.1.0"
edition = "2021"
publish = false

[dependencies]
serde_json = { version = "=1.0.154", features = ["preserve_order"] }
serde_yaml = "=0.9.34"
regex = "=1.13.1"
urlencoding = "=2.1.3"
comrak = { version = "=0.57.0", default-features = false }
headless_chrome = "=0.9.0"
image = { version = "=0.25.10", default-features = false, features = ["png", "jpeg", "webp", "bmp", "ico", "gif"] }
