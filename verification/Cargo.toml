[package]
name = "content_renamer"
version = "0.1.0"
edition = "2021"
publish = false

[dependencies]
anyhow = "1"
id3 = "=1.17.2"
mp4ameta = "=0.13.0"
once_cell = "1"
regex = "=1.13.1"
serde = { version = "1", features = ["derive"] }
serde_json = "1"
reqwest = { version = "=0.12.28", default-features = false, features = ["blocking", "json", "rustls-tls"] }
eframe = { version = "0.29", default-features = false, features = ["default_fonts", "glow", "x11"] }
