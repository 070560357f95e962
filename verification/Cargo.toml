[package]
name = "ouka"
version = "0.1.0"
edition = "2021"
publish = false

[dependencies]
regex = "1"
evdev = "*"
mlua = { version = "0.9", features = ["lua54", "vendored"] }
dotenv = "*"
