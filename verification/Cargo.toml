[package]
name = "quspec"
version = "0.1.0"
edition = "2021"
publish = false

[dependencies]
eframe = { version = "0.37", default-features = false, features = ["default_fonts", "glow", "x11"] }
arboard = "3"
rustfft = "6"
num-complex = "0.4"
symphonia = { version = "0.5", features = ["all"] }
