[package]
name = "fahrtenbuch"
version = "0.1.0"
edition = "2021"
publish = false

[dependencies]
anyhow = "1"
async-trait = "0.1"
axum = "0.7"
axum-login = "0.15"
axum-messages = "0.6"
chrono = { version = "0.4", features = ["serde"] }
color-backtrace = "0.6"
log = "0.4"
num-traits = "0.2"
password-auth = "1"
pretty_env_logger = "0.5"
serde = { version = "1", features = ["derive"] }
serde_json = "1"
sqlx = { version = "0.7", features = ["sqlite", "runtime-tokio", "chrono"] }
thiserror = "1"
time = "0.3"
tokio = { version = "1", features = ["full"] }
tower-http = { version = "0.5", features = ["cors", "trace"] }
tower-sessions = "0.12"
tower-sessions-sqlx-store = { version = "0.12", features = ["sqlite"] }
