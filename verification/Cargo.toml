[package]
name = "webtick"
version = "0.1.0"
edition = "2021"
publish = false

[dependencies]
uuid = { version = "=1.27.0", features = ["v4"] }
tokio = { version = "=1.53.2", features = ["full"] }
hyper = { version = "=1.12.0", features = ["server", "http1"] }
hyper-util = { version = "=0.1.21", features = ["tokio"] }
hyper-tungstenite = "=0.30.0"
hyper-staticfile = "=0.10.1"
http-body-util = "=0.1.5"
futures = "=0.3.34"
ewebsock = "=0.8.0"
serde = { version = "=1.0.229", features = ["derive"] }
bincode = "=1.3.3"
