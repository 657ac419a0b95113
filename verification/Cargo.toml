[package]
name = "wallpapers"
version = "0.1.0"
edition = "2021"
publish = false

[dependencies]
image = { version = "0.24", default-features = false, features = ["png", "jpeg", "bmp"] }
lru = "0.12"
clap = { version = "4", features = ["derive"] }
crossbeam-utils = "0.8"
dialoguer = { version = "0.11", features = ["history"] }
futures = "0.3"
libc = "0.2"
num_cpus = "1"
once_cell = "1"
rayon = "1"
regex = "1"
serde = { version = "1", features = ["derive"] }
signal-hook = "0.3"
tempfile = "3"
tokio = { version = "1", features = ["rt", "macros", "sync", "time"] }
toml = "0.9"
walkdir = "2"
x11 = { version = "2", features = ["xlib", "xrandr", "xinerama"] }
