[package]
name = "normalmapper"
version = "0.1.0"
edition = "2021"
publish = false

[dependencies]
image = { version = "*", default-features = false, features = ["png", "jpeg", "bmp", "tga", "tiff", "webp", "gif"] }
rayon = "*"
serde = { version = "*", features = ["derive"] }
serde_json = "*"
eframe = { version = "*", default-features = false, features = ["default_fonts", "glow", "wayland", "x11", "persistence"] }
rfd = "*"
