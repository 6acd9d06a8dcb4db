[package]
name = "openbook_candles"
version = "0.1.0"
edition = "2021"
publish = false

[dependencies]
anchor-lang = "*"
anyhow = "1"
chrono = "0.4"
deadpool-postgres = "0.10"
native-tls = "0.2"
num-traits = "0.2"
postgres-native-tls = "0.5"
serde = { version = "1", features = ["derive"] }
tokio = { version = "1", features = ["rt-multi-thread", "macros", "time"] }
tokio-postgres = { version = "0.7", features = ["with-chrono-0_4"] }
