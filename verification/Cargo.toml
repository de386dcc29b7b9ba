[package]
name = "recolor"
version = "0.1.0"
edition = "2021"
publish = false

[dependencies]
midly = "0.5"
egui = { version = "0.31", default-features = false }
eframe = { version = "0.31", default-features = false, features = ["glow", "x11", "default_fonts"] }
rfd = { version = "0.15", default-features = false, features = ["xdg-portal", "tokio"] }
