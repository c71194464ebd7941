[package]
name = "ingest"
version = "0.1.0"
edition = "2021"
publish = false

[dependencies]
clap = { version = "4", features = ["derive"] }
eframe = { version = "0.23", default-features = false, features = ["default_fonts", "glow"] }
egui_plot = "0.23"
nix = { version = "0.27", features = ["fs", "resource", "uio"] }
tracing = "0.1"
tracing-subscriber = "0.3"
