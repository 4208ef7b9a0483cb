[package]
name = "financial_chs"
version = "0.1.0"
edition = "2021"
publish = false

[dependencies]
axum = "0.8"
bcrypt = "0.17"
chrono = { version = "0.4", features = ["serde"] }
jsonwebtoken = "9"
serde = { version = "1", features = ["derive"] }
sqlx = { version = "0.8", features = ["runtime-tokio", "postgres", "chrono", "macros"], default-features = false }
tokio = { version = "1", features = ["full"] }
