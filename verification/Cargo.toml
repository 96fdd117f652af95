[package]
name = "petri"
version = "0.1.0"
edition = "2021"
publish = false

[dependencies]
rand = "0.8"
serde = { version = "1", features = ["derive"] }
serde_json = "1"
eframe = { version = "0.22", default-features = false, features = ["glow", "default_fonts"] }
egui = "0.22"
native-dialog = "0.6"
