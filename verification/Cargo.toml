[package]
name = "dupehunter"
version = "0.1.0"
edition = "2021"
publish = false

[dependencies]
xxhash-rust = { version = "=0.8.19", features = ["xxh3"] }
anyhow = "=1.0.104"
walkdir = "=2.5.0"
rayon = "=1.12.0"
crossbeam-channel = "=0.5.17"
eframe = { version = "=0.29.1", default-features = false, features = ["default_fonts", "glow", "x11"] }
egui = "=0.29.1"
rfd = { version = "=0.15.4", default-features = false, features = ["xdg-portal", "tokio"] }
