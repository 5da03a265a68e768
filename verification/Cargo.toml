[package]
name = "geo_git"
version = "0.1.0"
edition = "2021"
publish = false

[dependencies]
bytes = "=1.12.1"
clap = { version = "=4.6.7", features = ["derive"] }
colorgrad = "=0.7.2"
eframe = { version = "0.24", default-features = false, features = ["glow", "x11"] }
egui_plot = "0.24"
tokio = { version = "=1.54.1", features = ["fs", "macros", "rt-multi-thread"] }
