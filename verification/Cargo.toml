[package]
name = "st_click"
version = "0.1.0"
edition = "2021"
publish = false

[dependencies]
wmidi = "*"
serde = { version = "1", features = ["derive"] }
serde_yaml = "*"
yaml-rust = "*"
crossbeam-channel = "*"
clap = { version = "4", features = ["derive"] }
tokio = { version = "1", features = ["rt-multi-thread"] }
jack = "*"
eframe = { version = "*", default-features = false, features = ["glow", "default_fonts", "x11"] }
