[package]
name = "td_platformer"
version = "0.1.0"
edition = "2021"
publish = false

[dependencies]
rand = "=0.8.8"
bevy = { version = "0.8", default-features = false, features = ["bevy_asset", "bevy_winit", "render", "x11"] }
bevy_kira_audio = "0.12"
bevy_prototype_lyon = "0.6"
bevy_rapier2d = "0.16"
