[package]
name = "stark"
version = "0.1.0"
edition = "2021"
publish = false

[dependencies]
gfx-hal = "=0.9.0"
gfx-backend-vulkan = "=0.9.0"
shaderc = "=0.7.4"
raw-window-handle = "=0.3.4"
log = "=0.4.34"
simple_logger = "=1.16.0"
winit = "0.25"
