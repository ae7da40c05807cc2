[package]
name = "legend-of-r"
version = "0.1.0"
edition = "2021"
publish = false

[dependencies]
bevy = { version = "0.8", default-features = false, features = ["bevy_asset", "bevy_scene", "bevy_gltf", "render"] }
bevy_egui = { version = "0.15", default-features = false }
bevy-inspector-egui = { version = "0.12", default-features = false }
bevy_mod_debugdump = { version = "0.5", default-features = false }
bevy_rapier2d = { version = "0.16", default-features = false, features = ["dim2"] }
parry3d = "0.9"
lerp = "0.4"
rand = "0.8"
clap = { version = "3.2", features = ["derive"] }
serde = { version = "1", features = ["derive"] }
serde_json = "1"
