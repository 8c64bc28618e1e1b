[package]
name = "chunkworld"
version = "0.1.0"
edition = "2021"
publish = false

[dependencies]
rand = "=0.9.5"
noise = "=0.9.0"
bevy = { version = "=0.17.3", default-features = false, features = ["std", "async_executor", "multi_threaded", "bevy_winit", "bevy_window", "bevy_render", "bevy_core_pipeline", "bevy_sprite", "bevy_sprite_render", "bevy_mesh", "bevy_camera", "bevy_color", "bevy_asset", "bevy_image", "bevy_shader", "bevy_log", "x11"] }
