[package]
name = "grid_pathfinding"
version = "0.1.0"
edition = "2021"
publish = false

[dependencies]
bevy = { version = "=0.9.1", default-features = false, features = ["bevy_asset", "bevy_winit", "render", "x11"] }
bevy_egui = { version = "=0.19.0", default-features = false }
bevy_mod_picking = { version = "=0.11.0", default-features = false, features = ["2d"] }
