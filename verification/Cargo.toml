[package]
name = "wayclip"
version = "0.1.0"
edition = "2021"
publish = false

[dependencies]
base64 = "*"
dirs = "*"
libc = "*"
rusqlite = { version = "*", features = ["bundled"] }
sha2 = "*"
wayland-client = "*"
wayland-protocols-wlr = { version = "*", features = ["client"] }
