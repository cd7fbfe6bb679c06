[package]
name = "network_initializer"
version = "0.1.0"
edition = "2021"
publish = false

[dependencies]
crossbeam-channel = "0.5"
toml = "0.8"
log = "0.4"
colored = "2"
eframe = { version = "0.30", default-features = false, features = ["glow", "x11", "default_fonts"] }
