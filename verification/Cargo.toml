[package]
name = "duck_scene"
version = "0.1.0"
edition = "2021"
publish = false

[dependencies]
anyhow = "1"
bitflags = "2"
bytemuck = { version = "1", features = ["derive"] }
cgmath = "0.18"
image = { version = "0.25", default-features = false }
log = "0.4"
opencascade = "*"
serde = { version = "1", features = ["derive"] }
wgpu = { version = "27", default-features = false, features = ["std", "parking_lot", "vulkan", "wgsl"] }
