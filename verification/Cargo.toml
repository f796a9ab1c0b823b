[package]
name = "upulse"
version = "0.1.0"
edition = "2021"
publish = false

[dependencies]
eframe = { version = "0.36", default-features = false, features = ["default_fonts", "glow", "x11"] }
egui = { version = "0.36", default-features = false, features = ["default_fonts"] }
sysinfo = "0.32"
