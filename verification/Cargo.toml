[package]
name = "jz"
version = "0.1.0"
edition = "2021"
publish = false

[dependencies]
chrono = "=0.4.45"
dirs = "=6.0.0"
eframe = { version = "=0.31.1", default-features = false, features = ["glow", "default_fonts", "x11"] }
rusqlite = { version = "=0.34.0", features = ["bundled"] }
