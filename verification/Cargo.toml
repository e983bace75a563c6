[package]
name = "clip_tags"
version = "0.1.0"
edition = "2021"
publish = false

[dependencies]
base64 = "=0.23.1"
serde_json = "=1.0.151"
ollama-rs = "=0.3.6"
xcap = "=0.9.8"
tokio = { version = "*", features = ["rt", "macros"] }
