[package]
name = "cardboard"
version = "0.1.0"
edition = "2021"
publish = false

[dependencies]
axum = "*"
chrono = "*"
rand = "*"
serde = { version = "*", features = ["derive"] }
serde_json = "*"
tokio = { version = "*", features = ["macros", "net", "rt-multi-thread"] }
tower = "*"
tower-http = { version = "*", features = ["cors"] }
