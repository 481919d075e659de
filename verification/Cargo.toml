[package]
name = "sid_term"
version = "0.1.0"
edition = "2021"
publish = false

[dependencies]
anyhow = "1"
log = "0.4"
notify = "*"
nucleo = "0.5"
pulldown-cmark = { version = "0.13", default-features = false }
serde = { version = "1", features = ["derive"] }
serde_json = "1"
tokio = { version = "1", features = ["rt", "rt-multi-thread", "time", "macros", "sync"] }
toml = "*"
toml_edit = "*"
unicode-segmentation = "1"
unicode-width = "=0.1.12"
url = "2"
