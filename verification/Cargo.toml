[package]
name = "nubila"
version = "0.1.0"
edition = "2021"
publish = false

[dependencies]
anyhow = "1"
cgmath = "0.18"
chrono = "0.4"
defer = "*"
glium = "*"
glutin-winit = "*"
image = { version = "*", default-features = false, features = ["png"] }
linked-hash-map = "0.5"
log = "0.4"
plotters = { version = "*", default-features = false, features = ["bitmap_backend", "bitmap_encoder", "line_series"] }
ply-rs = "*"
