[package]
name = "chopsticks"
version = "0.1.0"
edition = "2021"
publish = false

[dependencies]
memmap2 = "0.9"
wayland-client = "0.31"
wayland-protocols-wlr = { version = "0.3", features = ["client"] }
calloop = "0.14"
calloop-wayland-source = "0.4"
swash = "0.2"
dirs = "6"
serde = { version = "1", features = ["derive"] }
toml = "0.8"
