[package]
name = "spectrum_compare"
version = "0.1.0"
edition = "2021"
publish = false

[dependencies]
anyhow = "1"
eframe = { version = "0.33", default-features = false, features = ["default_fonts", "glow", "x11"] }
egui_plot = "0.34"
rfd = { version = "0.15", default-features = false, features = ["xdg-portal", "async-std"] }
rubato = "0.16"
rustfft = "6"
symphonia = { version = "0.5", features = ["mp3", "aac", "isomp4"] }
