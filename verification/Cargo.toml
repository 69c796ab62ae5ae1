[package]
name = "slmsttaa"
version = "0.1.0"
edition = "2021"
publish = false

[dependencies]
arboard = "*"
bytemuck = { version = "1", features = ["derive"] }
env_logger = "*"
glam = { version = "*", features = ["bytemuck"] }
log = "0.4"
pollster = "*"
wgpu = "*"
winit = "0.30"
