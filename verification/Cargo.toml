[package]
name = "upskill"
version = "0.1.0"
edition = "2021"
publish = false

[dependencies]
ash = "0.38"
ash-window = "0.13"
winit = "0.30"
raw-window-handle = "0.6"
gpu-allocator = { version = "0.27", default-features = false, features = ["vulkan"] }
bytemuck = { version = "1", features = ["derive"] }
naga = { version = "*", features = ["wgsl-in", "spv-out"] }
