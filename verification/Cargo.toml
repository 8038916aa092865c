[package]
name = "lbr"
version = "0.1.0"
edition = "2021"
publish = false

[dependencies]
semver = "*"
slotmap = "*"
indextree = "*"
gltf = "*"
image = { version = "*", default-features = false, features = ["png", "jpeg", "hdr"] }
toml = "*"
serde = { version = "*", features = ["derive"] }
anyhow = "*"
glam = "*"
bytemuck = { version = "*", features = ["derive"] }
mikktspace = "*"
sysinfo = "*"
winit = "*"
wgpu = "*"
bevy_ecs = "*"
