[package]
name = "mdagent"
version = "0.1.0"
edition = "2021"
publish = false

[dependencies]
similar = "*"
urlencoding = "*"
base64 = "*"
serde = { version = "*", features = ["derive"] }
serde_json = "*"
axum = "*"
tokio = { version = "*", features = ["rt-multi-thread", "net", "macros", "io-util"] }
tower-http = { version = "*", features = ["cors"] }
reqwest = { version = "*", default-features = false, features = ["blocking", "json"] }
notify = "*"
notify-debouncer-mini = "*"
chrono = "*"
directories = "*"
dirs = "*"
