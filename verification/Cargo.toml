[package]
name = "yoteoke"
version = "0.1.0"
edition = "2021"
publish = false

[dependencies]
normalize-line-endings = "=0.3.0"
directories = "5"
egui_commonmark = { version = "0.20", features = ["macros"] }
ffmpeg-cli = "0.1"
image = { version = "0.25", default-features = false, features = ["png", "jpeg", "bmp", "tga", "tiff", "webp"] }
kira = "0.10"
minidumper-child = "0.2"
sadness-generator = "0.6"
serde = { version = "1", features = ["derive"] }
serde_json = "1"

[dev-dependencies]
regex = "=1.13.1"
