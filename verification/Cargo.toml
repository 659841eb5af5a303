[package]
name = "personal_site"
version = "0.1.0"
edition = "2021"
publish = false

[dependencies]
pulldown-cmark = "*"
chrono = { version = "*", features = ["serde"] }
serde = { version = "1", features = ["derive"] }
serde_json = "1"
askama = "*"
axum = "*"
tokio = { version = "1", features = ["full"] }
tower-http = { version = "*", features = ["fs"] }
