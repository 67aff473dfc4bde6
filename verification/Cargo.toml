[package]
name = "tileman"
version = "0.1.0"
edition = "2021"
publish = false

[dependencies]
regex = "1"
log = "0.4"
egui = "0.22"
eframe = { version = "0.22", default-features = false, features = ["glow", "default_fonts"] }
