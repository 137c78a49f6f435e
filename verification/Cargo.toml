[package]
name = "eleanor_server"
version = "0.1.0"
edition = "2021"
publish = false

[dependencies]
mime = "0.3"
mime_guess = "2"
walkdir = "2"
lofty = "*"
symphonia = "*"
serde = { version = "1", features = ["derive"] }
toml = "*"

[dev-dependencies]
adler = "1"
