[package]
name = "voxview"
version = "0.1.0"
edition = "2021"
publish = false

[dependencies]
anyhow = "1"
bytemuck = { version = "1", features = ["derive"] }
clap = { version = "4", features = ["derive"] }
dot_vox = "=5.2.0"
egui = { version = "=0.37.0", default-features = false, features = ["default_fonts"] }
egui-winit = { version = "=0.37.0", default-features = false, features = ["x11"] }
glam = { version = "=0.34.2", features = ["bytemuck"] }
image = { version = "=0.25.10", default-features = false, features = ["png"] }
notify = "=8.2.1"
pollster = "=1.0.1"
wgpu = { version = "=30.0.1", default-features = false, features = ["std", "wgsl", "vulkan"] }
winit = { version = "=0.30.13", default-features = false, features = ["rwh_06", "x11"] }
