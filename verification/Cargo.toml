[package]
name = "lilyabc-browser"
version = "0.1.0"
edition = "2021"
publish = false

[dependencies]
blake3 = "=1.8.7"
lru = "=0.19.0"
walkdir = "=2.5.0"
which = "=8.0.6"
env_logger = "=0.11.11"
eframe = { version = "=0.37.0", default-features = false, features = ["glow", "default_fonts", "wayland", "x11"] }
egui_extras = { version = "=0.37.0", default-features = false, features = ["image", "svg"] }
rfd = { version = "=0.17.2", default-features = false, features = ["xdg-portal"] }
