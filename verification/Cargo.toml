[package]
name = "forge_core"
version = "0.1.0"
edition = "2021"
publish = false

[dependencies]
anyhow = "=1.0.104"
serde = { version = "=1.0.229", features = ["derive"] }
serde_json = "=1.0.154"
streamdown-ansi = "=0.1.4"
terminal-colorsaurus = "=1.0.3"
tokio = { version = "=1.54.1", features = ["sync"] }
tracing = "=0.1.44"
unicode-width = "=0.2.3"

[dev-dependencies]
strip-ansi-escapes = "=0.2.1"
