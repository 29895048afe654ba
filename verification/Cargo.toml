[package]
name = "json_unix_time"
version = "0.1.0"
edition = "2021"
publish = false

[dependencies]
chrono = "0.4"
serde_json = { version = "1", features = ["preserve_order"] }
egui = "0.22"
egui_extras = "0.22"
eframe = { version = "0.22", default-features = false, features = ["default_fonts", "glow"] }
