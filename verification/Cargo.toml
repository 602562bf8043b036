[package]
name = "pigment"
version = "0.1.0"
edition = "2021"
publish = false

[dependencies]
half = "=2.7.1"
bytemuck = { version = "=1.25.2", features = ["derive"] }
egui = "=0.34.3"
eframe = { version = "=0.34.3", default-features = false, features = ["wgpu", "default_fonts", "x11"] }
log = "=0.4.35"
rfd = { version = "=0.17.2", default-features = false, features = ["xdg-portal"] }

[dev-dependencies]
serde_json = "=1.0.154"
