[package]
name = "euchre_rotator"
version = "0.1.0"
edition = "2021"
publish = false

[dependencies]
rand = "0.8"
shuffle = "0.1"
serde = { version = "1", features = ["derive"] }
egui = "*"
eframe = { version = "*", default-features = false, features = ["default_fonts", "glow", "persistence", "x11"] }
