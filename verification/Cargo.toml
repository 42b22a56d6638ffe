[package]
name = "exprlang"
version = "0.1.0"
edition = "2021"
publish = false

[dependencies]
anyhow = "1"
ecow = "0.2"
pollster = "0.4"
vello = "0.5"
winit = "0.30"
