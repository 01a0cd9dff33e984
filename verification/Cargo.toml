[package]
name = "traffic_stats"
version = "0.1.0"
edition = "2021"
publish = false

[dependencies]
actix-cors = "0.7"
actix-web = "4"
anyhow = "1"
awc = "3"
clap = { version = "4", features = ["derive"] }
libc = "0.2"
log = "0.4"
pretty_env_logger = "0.5"
prost = "0.13"
serde = { version = "1", features = ["derive"] }
serde_json = "1"
sqlx = { version = "0.8", default-features = false, features = ["runtime-tokio", "sqlite"] }
time = { version = "0.3", features = ["local-offset"] }
tokio = { version = "1", features = ["macros", "rt", "sync", "time"] }
xray-core = "*"
