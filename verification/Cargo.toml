[package]
name = "raytracer"
version = "0.1.0"
edition = "2021"
publish = false

[dependencies]
rand = "0.9"
rand_xorshift = "0.4"
log = "0.4"
time-format = "*"
serde = { version = "1", features = ["derive"] }
thiserror = "*"
flume = "*"
cancellation = "*"
arrayvec = "0.7"
bmp = "*"
image = { version = "0.25", default-features = false, features = ["png", "jpeg", "bmp"] }
eframe = { version = "*", default-features = false, features = ["default_fonts", "glow", "x11"] }
