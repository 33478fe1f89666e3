[package]
name = "mockup_studio"
version = "0.1.0"
edition = "2021"
publish = false

[dependencies]
ab_glyph = "=0.2.32"
image = { version = "=0.25.10", default-features = false, features = ["png", "jpeg"] }
serde = { version = "=1.0.229", features = ["derive"] }
serde_json = "=1.0.154"
anyhow = "=1.0.104"
egui = "=0.29.1"
eframe = { version = "=0.29.1", default-features = false, features = ["default_fonts", "glow", "x11"] }
rfd = "=0.15.4"

[dev-dependencies]
epaint_default_fonts = "=0.29.1"
