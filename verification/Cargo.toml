[package]
name = "kimi_bg_tool"
version = "0.1.0"
edition = "2021"
publish = false

[dependencies]
anyhow = "1"
base64 = "0.22"
regex = "1"
image = { version = "0.25", default-features = false, features = ["png", "jpeg", "gif", "webp", "bmp"] }
eframe = { version = "0.31", default-features = false, features = ["default_fonts", "glow", "x11"] }
rfd = "0.15"
winreg = "0.55"
