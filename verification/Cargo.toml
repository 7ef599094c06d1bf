[package]
name = "planet_pixel"
version = "0.1.0"
edition = "2021"
publish = false

[dependencies]
rand = "0.9"
fastnoise-lite = "*"
rayon = "*"
sdl2 = { version = "*", features = ["image", "ttf"] }
