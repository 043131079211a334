[package]
name = "solid_diff"
version = "0.1.0"
edition = "2021"
publish = false

[dependencies]
flate2 = "1"
png = "0.17"
gif = "0.13"
spade = "2"
clap = { version = "4", features = ["derive"] }
serde = { version = "1", features = ["derive"] }
serde_json = "1"
axum = "0.8"
tokio = { version = "1", features = ["rt-multi-thread", "macros", "net", "fs", "sync"] }
opencascade-sys = "0.2"
