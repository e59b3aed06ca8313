[package]
name = "kanban_backend"
version = "0.1.0"
edition = "2021"
publish = false

[dependencies]
async-nats = "0.33"
axum = { version = "0.6", features = ["ws"] }
chrono = "0.4"
clap = { version = "4", features = ["derive", "env"] }
futures-util = "0.3"
mongodb = "2"
serde = { version = "1", features = ["derive"] }
serde_json = "1"
tokio = { version = "1", features = ["full"] }
tower-http = { version = "0.4", features = ["cors", "fs", "trace"] }
tracing = "0.1"
tracing-subscriber = { version = "0.3", features = ["env-filter"] }
