[package]
name = "latency_probe"
version = "0.1.0"
edition = "2021"
publish = false

[dependencies]
chrono = "0.4"
futures-util = { version = "0.3", features = ["sink"] }
serde_json = "1"
tokio = { version = "1", features = ["macros", "rt-multi-thread", "time"] }
tokio-tungstenite = { version = "*", features = ["native-tls"] }
