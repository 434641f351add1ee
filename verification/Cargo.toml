[package]
name = "pickture"
version = "0.1.0"
edition = "2021"
publish = false

[dependencies]
directories = "6"
serde = { version = "1", features = ["derive"] }
serde_json = "1"
anyhow = "1"
image = { version = "0.25", default-features = false, features = ["jpeg", "png", "bmp", "gif", "tiff", "webp"] }
kamadak-exif = "0.6"
jpeg-decoder = "0.3"
fast_image_resize = "5"
rayon = "1"
egui = "0.31"
eframe = { version = "0.31", default-features = false, features = ["default_fonts", "glow", "x11"] }
rfd = "0.15"
