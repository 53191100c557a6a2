[package]
name = "facecam"
version = "0.1.0"
edition = "2021"
publish = false

[dependencies]
anyhow = "=1.0.104"
cpal = "=0.17.3"
eframe = { version = "=0.34.3", default-features = false, features = ["default_fonts", "glow", "x11"] }
png = "=0.18.1"
ringbuf = "=0.4.8"
rustfft = "=6.4.1"
