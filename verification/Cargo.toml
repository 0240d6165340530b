[package]
name = "iron_dome"
version = "0.1.0"
edition = "2021"
publish = false

[dependencies]
image = { version = "=0.23.14", default-features = false, features = ["png", "jpeg"] }
tiny-rng = "=0.3.0"
webp-animation = "=0.5.0"
captrs = "=0.3.1"
eframe = { version = "=0.23.0", default-features = false, features = ["glow", "x11"] }
egui = { version = "=0.23.0", default-features = false }
