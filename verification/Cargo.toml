[package]
name = "mbooks"
version = "0.1.0"
edition = "2021"
publish = false

[dependencies]
clap = { version = "*", features = ["derive"] }
futures-util = "*"
tokio = { version = "*", features = ["rt-multi-thread", "macros", "sync", "signal", "net", "time", "io-util"] }
tokio-tungstenite = "*"
url = "*"
