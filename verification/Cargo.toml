[package]
name = "track_overlay"
version = "0.1.0"
edition = "2021"
publish = false

[dependencies]
anyhow = "=1.0.104"
chrono = "=0.4.45"
clap = { version = "=4.6.7", features = ["derive", "env"] }
crossbeam-channel = "=0.5.17"
csv = "=1.4.0"
eframe = { version = "=0.36.2", default-features = false, features = ["default_fonts", "glow", "x11"] }
egui-file-dialog = "=0.15.0"
env_logger = "=0.11.11"
ffmpeg-next = "=9.0.0"
log = "=0.4.35"
lru = "=0.19.0"
rusttype = "=0.9.3"
serde = { version = "=1.0.229", features = ["derive"] }
serde_json = "=1.0.154"
tempfile = "=3.27.0"
thiserror = "=1.0.69"
tiny-skia = "=0.12.0"
