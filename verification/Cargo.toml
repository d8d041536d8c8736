[package]
name = "sevend"
version = "0.1.0"
edition = "2021"
publish = false

[dependencies]
pathfinding = "0"
rand = "0.4"
rusqlite = { version = "*", features = ["blob"] }
sdl2 = { version = "*", features = ["image", "ttf", "mixer"] }
