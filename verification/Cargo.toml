[package]
name = "protomatrix"
version = "0.1.0"
edition = "2021"
publish = false

[dependencies]
eframe = { version = "0.33", default-features = false, features = ["default_fonts", "glow", "x11"] }
log = "=0.4.35"
rfd = "=0.15.4"
serde = { version = "=1.0.229", features = ["derive"] }
serde_json = "=1.0.154"
