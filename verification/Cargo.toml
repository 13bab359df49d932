[package]
name = "agile_archer"
version = "0.1.0"
edition = "2021"
publish = false

[dependencies]
linked-hash-map = "=0.5.6"
cgmath = "=0.18.0"
specs = "=0.20.0"
tiled = "=0.16.0"
serde = { version = "=1.0.229", features = ["derive"] }
serde_json = "=1.0.154"
gfx = "*"
gfx_window_glutin = "*"
glutin = "0.21"
genmesh = "*"
image = "*"
