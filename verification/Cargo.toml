[package]
name = "stardew"
version = "0.1.0"
edition = "2021"
publish = false

[dependencies]
macroquad = { version = "0.4", default-features = false }
tiled = { version = "0.11", default-features = false }
