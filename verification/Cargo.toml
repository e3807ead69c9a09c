[package]
name = "pepos"
version = "0.1.0"
edition = "2021"
publish = false

[dependencies]
chrono = "0.4"
fontdue = "0.9"
memmap2 = "0.9"
serde = { version = "1", features = ["derive"] }
tempfile = "3"
tiny-skia = "0.11"
toml = "0.8"
tracing = "0.1"
tracing-subscriber = "0.3"
wayland-client = "0.31"
wayland-protocols-wlr = { version = "0.3", features = ["client"] }
