[package]
name = "herdr_glowr"
version = "0.1.0"
edition = "2021"
publish = false

[dependencies]
anyhow = "1"
pulldown-cmark = { version = "0.12", default-features = false }
ratatui = "0.30"
serde_json = "1"
toml = "0.8"
unicode-width = "0.2"

[dev-dependencies]
tempfile = "3"
