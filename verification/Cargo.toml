[package]
name = "load_balancer"
version = "0.1.0"
edition = "2021"
publish = false

[dependencies]
rand = "0.8"
tokio = { version = "1", features = ["rt-multi-thread", "sync", "time", "macros"] }
serde = { version = "1", features = ["derive"] }
envy = "0.4"
dotenv = "0.15"
thiserror = "1"
regex = "1"
tracing = "0.1"
tracing-subscriber = "0.3"
