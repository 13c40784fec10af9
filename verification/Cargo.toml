[package]
name = "directedtype"
version = "0.1.0"
edition = "2021"
publish = false

[dependencies]
vello = "=0.11.0"
parley = "=0.12.0"
winit = "=0.30.13"
pollster = "=1.0.1"
image = { version = "=0.25.10", default-features = false, features = ["png"] }
objc2 = "=0.6.5"
raw-window-handle = "=0.6.2"
