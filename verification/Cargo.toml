[package]
name = "liteexif"
version = "0.1.0"
edition = "2021"
publish = false

[dependencies]
bytemuck = { version = "=1.25.2", features = ["derive"] }
freetype-rs = { version = "=0.37.0", features = ["bundled"] }
image = { version = "=0.25.10", default-features = false, features = ["png", "jpeg", "tiff", "webp"] }
jpeg-encoder = "=0.7.1"
minijinja = "=2.24.0"
minijinja-contrib = { version = "=2.24.0", features = ["pycompat"] }
pollster = "=1.0.1"
rayon = "=1.12.0"
serde = { version = "=1.0.229", features = ["derive"] }
serde_json = "=1.0.154"
walkdir = "=2.5.0"
wgpu = "=30.0.1"
