[package]
name = "paint_desk"
version = "0.1.0"
edition = "2021"
publish = false

[dependencies]
eframe = { version = "=0.27.2", default-features = false, features = ["glow"] }
egui = "=0.27.2"
egui_dnd = "=0.8.0"
glam = "=0.27.0"
wasm-bindgen-futures = "0.4"
