[package]
name = "sandbox"
version = "0.1.0"
edition = "2021"
publish = false

[dependencies]
rand = "=0.8.8"
rand_pcg = "=0.3.1"
rayon = "=1.12.0"
flume = "=0.10.14"
simdnoise = "=3.1.6"
puffin = "=0.13.3"
pixels = "=0.9.0"
winit = "=0.26.1"
imgui = "=0.8.2"
imgui-wgpu = "=0.19.0"
imgui-winit-support = { version = "=0.8.2", default-features = false, features = ["winit-26"] }
bytemuck = "=1.25.2"
