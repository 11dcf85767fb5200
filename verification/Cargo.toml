[package]
name = "image_prompt_generator"
version = "0.1.0"
edition = "2021"
publish = false

[dependencies]
anyhow = "*"
axum = { version = "*", features = ["multipart"] }
chrono = "*"
html-escape = "*"
serde = { version = "*", features = ["derive"] }
serde_json = "*"
tokio = { version = "*", features = ["net", "rt", "sync"] }
toml = "*"
tower-http = { version = "*", features = ["cors"] }
