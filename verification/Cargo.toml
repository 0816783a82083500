[package]
name = "mux_server"
version = "0.1.0"
edition = "2021"
publish = false

[dependencies]
alacritty_terminal = "*"
regex = "1"
serde = { version = "1", features = ["derive"] }
serde_json = "1"
anyhow = "1"
dirs = "*"
libc = "0.2"
parking_lot = "0.12"
portable-pty = "*"
flate2 = "1"
tar = "0.4"
nanoid = "0.4"

[dev-dependencies]
tempfile = "3"
