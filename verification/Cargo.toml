[package]
name = "mysql_srv"
version = "0.1.0"
edition = "2021"
publish = false

[dependencies]
tokio = { version = "1", features = ["io-util"] }
metrics = "*"
metrics-util = "*"
serde = { version = "1", features = ["derive"] }

[dev-dependencies]
nom = "7"
