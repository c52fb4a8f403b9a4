[package]
name = "pingcrm"
version = "0.1.0"
edition = "2021"
publish = false

[dependencies]
sha256 = "*"
serde = { version = "*", features = ["derive"] }
serde_json = "*"
axum = "*"
tokio = { version = "*", features = ["macros", "rt-multi-thread"] }
mime_guess = "*"
tracing = "*"
tracing-subscriber = { version = "*", features = ["env-filter"] }
anyhow = "*"
thiserror = "*"
