[package]
name = "bevytor"
version = "0.1.0"
edition = "2021"
publish = false

[dependencies]
bevy = { version = "0.8", default-features = false, features = ["bevy_asset", "bevy_scene", "bevy_winit", "render", "png", "hdr", "x11"] }
bevy_egui = { version = "0.15", default-features = false }
walkdir = "2"
