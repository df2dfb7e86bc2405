[package]
name = "disc_golf_man"
version = "0.1.0"
edition = "2021"
publish = false

[dependencies]
bevy = { version = "=0.15.3", default-features = false, features = ["bevy_state", "bevy_sprite", "bevy_winit", "bevy_render", "bevy_core_pipeline", "png", "x11"] }
