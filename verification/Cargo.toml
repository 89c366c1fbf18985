[package]
name = "message_buffer"
version = "0.1.0"
edition = "2021"
publish = false

[dependencies]
time = "*"
axum = "*"
tokio = { version = "*", features = ["macros", "rt-multi-thread", "net", "sync"] }
tower-http = { version = "*", features = ["cors"] }
tracing = "*"
tracing-subscriber = "*"
anyhow = "*"
serde = { version = "*", features = ["derive"] }

[dev-dependencies]
serde_json = "*"
