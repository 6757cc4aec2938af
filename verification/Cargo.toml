[package]
name = "queens"
version = "0.1.0"
edition = "2021"
publish = false

[dependencies]
rand = "*"
eframe = { version = "*", default-features = false, features = ["glow", "x11", "default_fonts"] }
egui_extras = { version = "*", default-features = false }
env_logger = { version = "*", default-features = false }
log = "*"
