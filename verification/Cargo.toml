[package]
name = "ploscaru"
version = "0.1.0"
edition = "2021"
publish = false

[dependencies]
anyhow = "*"
axum = "*"
clap = { version = "*", features = ["derive"] }
libc = "*"
mime_guess = "*"
serde = { version = "*", features = ["derive"] }
serde_json = "*"
stats_alloc = "*"
tokio = { version = "*", features = ["full"] }
tower-http = { version = "*", features = ["trace"] }
tracing = "*"
tracing-subscriber = { version = "*", features = ["env-filter"] }
