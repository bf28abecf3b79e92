[package]
name = "faust"
version = "0.1.0"
edition = "2021"
publish = false

[dependencies]
pulldown-cmark = { version = "0.13", default-features = false }
nucleo-matcher = "0.3"
ignore = "0.4"
notify = "8"
egui = "*"
eframe = { version = "*", default-features = false, features = ["glow", "default_fonts", "x11", "wayland"] }
