[package]
name = "windows_features"
version = "0.1.0"
edition = "2021"
publish = false

[dependencies]
clap = "4"
color-eyre = "0.6"
directories = "5"
itertools = "0.13"
reqwest = "0.12"
serde = { version = "1", features = ["derive"] }
serde_json = "1"
tokio = { version = "1", features = ["full"] }
tracing = "0.1"
tracing-subscriber = { version = "0.3", features = ["env-filter"] }
