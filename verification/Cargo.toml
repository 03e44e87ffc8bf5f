[package]
name = "roadwork_server"
version = "0.1.0"
edition = "2021"
publish = false

[dependencies]
bcrypt = "*"
axum = "*"
axum-auth = "*"
tokio = { version = "*", features = ["macros", "rt-multi-thread", "net"] }
serde = { version = "*", features = ["derive"] }
log = "*"
env_logger = "*"
