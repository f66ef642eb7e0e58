[package]
name = "gds_text"
version = "0.1.0"
edition = "2021"
publish = false

[dependencies]
anyhow = "1"
serde = { version = "1", features = ["derive"] }
gds21 = "*"
image = { version = "0.25", default-features = false, features = ["png"] }
printpdf = { version = "0.7", default-features = false }
cosmic-text = "*"
eframe = { version = "*", default-features = false, features = ["glow", "default_fonts", "x11"] }
rfd = "*"
env_logger = "*"
