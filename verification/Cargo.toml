[package]
name = "kmoefix"
version = "1.0.0"
edition = "2021"
publish = false

[dependencies]
regex = "=1.13.1"
zip = { version = "=2.6.1", default-features = false, features = ["deflate"] }
image = { version = "=0.25.10", default-features = false, features = ["jpeg", "png"] }
serde = { version = "=1.0.229", features = ["derive"] }
serde_json = "=1.0.154"
crc32fast = "=1.5.4"
flate2 = "=1.1.10"
eframe = { version = "=0.31.1", default-features = false, features = ["default_fonts", "glow", "x11"] }
egui = "=0.31.1"
rfd = { version = "=0.15.4", default-features = false, features = ["xdg-portal", "tokio"] }
