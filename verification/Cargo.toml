[package]
name = "kvstore"
version = "0.1.0"
edition = "2021"
publish = false

[dependencies]
tokio = { version = "1", features = ["full"] }
fastrand = "2"
dashmap = "6"
chrono = "0.4"
sqlx = { version = "0.8", default-features = false, features = ["postgres", "runtime-tokio", "rust_decimal", "migrate"] }
axum = "0.8"
tower-http = { version = "0.6", features = ["trace"] }
tracing = "0.1"
tracing-subscriber = { version = "0.3", features = ["env-filter"] }
dotenvy = "0.15"
serde = { version = "1", features = ["derive"] }
anyhow = "1"
