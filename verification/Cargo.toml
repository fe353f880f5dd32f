[package]
name = "rbus"
version = "0.1.0"
edition = "2021"
publish = false

[dependencies]
rmp-serde = "*"
log = "*"
pretty_env_logger = "*"
redis-async = "*"
tokio = { version = "1", features = ["macros", "rt-multi-thread"] }
