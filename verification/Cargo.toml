[package]
name = "glyphr"
version = "0.1.0"
edition = "2021"
publish = false

[dependencies]
minijinja = "*"
serde = { version = "1", features = ["derive"] }
syn = "2"
toml = "*"
ttf-parser = "*"
