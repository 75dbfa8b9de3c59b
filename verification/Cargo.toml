[package]
name = "rabst"
version = "0.1.0"
edition = "2021"
publish = false

[dependencies]
anyhow = "=1.0.104"
walkdir = "=2.5.0"
bevy = { version = "=0.18.1", default-features = false, features = ["bevy_state"] }
