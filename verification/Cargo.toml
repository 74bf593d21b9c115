[package]
name = "pixel_engine"
version = "0.1.0"
edition = "2021"
publish = false

[dependencies]
image = { version = "=0.24.9", default-features = false, features = ["png", "bmp", "gif", "jpeg"] }
slab = "=0.4.12"
parking_lot = "=0.12.5"
once_cell = "=1.21.4"
glutin = "=0.21.2"
gfx = "=0.18.3"
gfx_device_gl = "=0.16.2"
gfx_window_glutin = "=0.31.0"
wgpu = { version = "=0.14.2", features = ["spirv"] }
winit = "=0.27.5"
bytemuck = { version = "=1.25.2", features = ["derive"] }
