[package]
name = "hexxengine"
version = "0.1.0"
edition = "2021"
publish = false

[dependencies]
thunderdome = "=0.6.1"
glam = "=0.33.12"
image = { version = "=0.25.10", default-features = false, features = ["png"] }
winit = "=0.30.13"
rapier3d = "=0.36.1"
ash = "=0.38.0"
ash-window = "=0.13.0"
vk-mem = "=0.5.0"
gltf = "=1.4.1"
nalgebra = "=0.35.0"
rand = "=0.10.3"
