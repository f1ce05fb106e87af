[package]
name = "raymarcher"
version = "0.1.0"
edition = "2021"
publish = false

[dependencies]
vecmath = "1.0"
sdl2 = { version = "0.35", features = ["gfx", "ttf"] }
spin_sleep = "1"
