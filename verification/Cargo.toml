[package]
name = "portraitify"
version = "0.1.0"
edition = "2021"
publish = false

[dependencies]
image = { version = "0.25", default-features = false, features = ["png"] }
frand = "*"
indexmap = "2"
egui = { version = "0.32", default-features = false }
color_quant = "1.1"
gif = "0.13"
uuid = { version = "1", features = ["v4", "serde"] }
pathfinding = "4"
serde = { version = "1", features = ["derive"] }
wgpu = { version = "25", default-features = false, features = ["wgsl"] }
rfd = "0.15"
