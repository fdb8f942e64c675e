[package]
name = "rustbrush"
version = "0.1.0"
edition = "2021"
publish = false

[dependencies]
image = { version = "0.25", default-features = false, features = ["png", "jpeg", "gif", "bmp", "webp"] }
palette = "0.7"
serde = { version = "1", features = ["derive"] }
serde_json = "1"
clap = { version = "4", features = ["derive"] }
enigo = "0.3"
portable-atomic = "1"
env_logger = "0.11"
ureq = "3"
imageproc = { version = "0.25", default-features = false }
ab_glyph = "0.2"
