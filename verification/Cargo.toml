[package]
name = "heretic"
version = "0.1.0"
edition = "2021"
publish = false

[dependencies]
anyhow = "=1.0.104"
byteorder = "=1.5.0"
bevy = { version = "=0.6.1", default-features = false, features = ["bevy_render", "bevy_sprite", "bevy_core_pipeline", "bevy_winit", "x11"] }
# bevy 0.6's derive macros use syn 1's `full` feature without asking for it;
# darling's macro crate asks for it, so that bevy's macros build.
darling = "=0.13.4"
