[package]
name = "hyperchess"
version = "0.1.0"
edition = "2021"
publish = false

[dependencies]
bevy = { version = "=0.16.1", default-features = false, features = ["std", "bevy_asset", "bevy_color", "bevy_core_pipeline", "bevy_log", "bevy_mesh_picking_backend", "bevy_pbr", "bevy_picking", "bevy_render", "bevy_window"] }
bevy_flycam = "=0.16.1"
proc-macro2 = "=1.0.107"
quote = "=1.0.47"
syn = "=2.0.119"
