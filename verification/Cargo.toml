[package]
name = "mazegen"
version = "0.1.0"
edition = "2021"
publish = false

[dependencies]
rand = "0.9"
clap = { version = "4", features = ["derive"] }
serde = { version = "1", features = ["derive"] }
log = "0.4"
env_logger = "0.11"
egui = "0.31"
eframe = { version = "0.31", default-features = false, features = ["glow", "persistence", "x11", "default_fonts"] }
