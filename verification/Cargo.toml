[package]
name = "lottify"
version = "0.1.0"
edition = "2021"
publish = false

[dependencies]
esvg = "=0.6.0"
kurbo = "=0.11.3"
polygonical = "=0.5.0"
serde_json = "=1.0.154"
