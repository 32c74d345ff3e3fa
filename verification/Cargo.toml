[package]
name = "steel_core"
version = "0.1.0"
edition = "2021"
publish = false

[dependencies]
rand = "0.8"
bevy = { version = "0.15", default-features = false, features = ["bevy_sprite", "bevy_ui", "bevy_text", "bevy_window", "bevy_render", "bevy_core_pipeline", "bevy_asset"] }
