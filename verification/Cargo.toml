[package]
name = "redactr"
version = "0.1.0"
edition = "2021"
publish = false

[dependencies]
chrono = "0.4"
serde = { version = "1", features = ["derive"] }
actix-web = { version = "4", default-features = false, features = ["macros"] }
tokio = { version = "1", features = ["sync", "rt-multi-thread", "macros"] }
log = "0.4"
env_logger = "*"
futures-util = "0.3"
anyhow = "1"
thiserror = "*"
