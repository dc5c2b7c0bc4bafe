[package]
name = "bevy_pf_vector"
version = "0.1.0"
edition = "2021"
publish = false

[dependencies]
bevy = { version = "0.19", default-features = false, features = ["std", "bevy_render", "bevy_core_pipeline", "bevy_sprite", "bevy_sprite_render", "bevy_window", "multi_threaded"] }
bevy_vector_shapes = { version = "0.13", default-features = false }
bytemuck = { version = "1", features = ["derive"] }
lyon = "1"
vello = "0.9"
