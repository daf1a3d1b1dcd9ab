[package]
name = "spiral_down"
version = "0.1.0"
edition = "2021"
publish = false

[dependencies]
jiff = "0.2"
clap = { version = "4", features = ["derive"] }
color-eyre = "0.6"
typed_floats = "1"
eframe = { version = "0.37", default-features = false, features = ["default_fonts", "glow", "x11"] }
