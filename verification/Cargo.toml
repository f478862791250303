[package]
name = "image_to_palette"
version = "0.1.0"
edition = "2021"
publish = false

[dependencies]
hex_color = "=2.1.0"
image = "=0.24.9"
reqwest = "=0.11.27"
rocket = { version = "=0.5.2", features = ["json"] }
tokio = { version = "=1.54.1", features = ["rt", "time"] }
