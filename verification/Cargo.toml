[package]
name = "minigames"
version = "0.1.0"
edition = "2021"
publish = false

[dependencies]
rand = "0.8"
ndarray = "0.15"
toml = "0.8"
serde = { version = "1", features = ["derive"] }
serde_derive = "1"
text_io = "0.1"
plotters = "0.3"
