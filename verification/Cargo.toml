[package]
name = "wavemark"
version = "0.1.0"
edition = "2021"
publish = false

[dependencies]
anyhow = "1"
chrono = "0.4"
clap = { version = "4", features = ["derive"] }
hound = "3"
rodio = "*"
serde = { version = "1", features = ["derive"] }
serde_json = "1"
symphonia = "0.5"
uuid = { version = "1", features = ["v4"] }
