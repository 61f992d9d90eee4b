[package]
name = "rusty_go"
version = "0.1.0"
edition = "2021"
publish = false

[dependencies]
bevy = { version = "=0.18.1", default-features = false, features = ["std", "async_executor", "bevy_asset", "bevy_window", "bevy_render", "bevy_core_pipeline", "bevy_camera", "bevy_color", "bevy_mesh", "bevy_image", "bevy_sprite", "bevy_sprite_render", "bevy_ui", "bevy_ui_render", "bevy_text", "default_font"] }
