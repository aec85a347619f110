[package]
name = "pyxel_core"
version = "0.1.0"
edition = "2021"
publish = false

[dependencies]
rand = "=0.10.3"
rand_xoshiro = "=0.8.1"
noise = "=0.9.0"
blip_buf = "=0.2.1"
fontdue = "=0.9.5"
symphonia = "=0.6.1"
zip = { version = "=9.2.2", default-features = false, features = ["deflate"] }
image = { version = "0.25", default-features = false, features = ["png", "gif", "bmp", "jpeg"] }
