[package]
name = "voxel_chunks"
version = "0.1.0"
edition = "2021"
publish = false

[dependencies]
bytemuck = "1"
cgmath = "0.17"
env_logger = "0.7"
futures = "0.3"
log = "0.4"
shaderc = "0.6"
wgpu = "0.5"
wgpu_glyph = "0.9"
winit = "0.22"
