[package]
name = "programming_game"
version = "0.1.0"
edition = "2021"
publish = false

[dependencies]
bevy = { version = "0.17", default-features = false, features = ["bevy_pbr", "bevy_winit", "x11"] }
bevy_egui = { version = "0.38", default-features = false, features = ["default_fonts", "render"] }
