[package]
name = "feather"
version = "0.1.0"
edition = "2021"
publish = false

[dependencies]
xxhash-rust = { version = "0.8", features = ["xxh3"] }
image = { version = "0.25", default-features = false, features = ["png", "jpeg"] }
serde_json = "1"
base64 = "0.13"
urlencoding = "2"
gltf = { version = "1", features = ["import", "utils", "extras", "names"] }
intel_tex_2 = "*"
meshopt = "*"
glam = "0.29"
winit = "0.30"
ash = "0.38"
ash-window = "0.13"
raw-window-handle = "0.6"
vk-mem = "0.4"
bevy_ecs = "0.16"
rapier3d = "=0.35.3"
