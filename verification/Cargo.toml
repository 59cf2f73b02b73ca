[package]
name = "voxel_svo"
version = "0.1.0"
edition = "2021"
publish = false

[dependencies]
dot_vox = "5"
bytemuck = { version = "1", features = ["derive"] }
nalgebra = "0.33"
pollster = "0.4"
winit = "0.30"
wgpu = "25"
egui = "0.32"
egui-wgpu = "0.32"
egui-winit = "0.32"
