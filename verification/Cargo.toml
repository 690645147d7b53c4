[package]
name = "nyrodb"
version = "0.1.0"
edition = "2021"
publish = false

[dependencies]
anyhow = "=1.0.104"
chrono = "=0.4.45"
futures-util = "=0.3.34"
memmap2 = "=0.9.11"
serde = { version = "=1.0.229", features = ["derive"] }
serde_json = "=1.0.151"
tokio = { version = "=1.53.2", features = ["full"] }
toml = "=1.1.7"
warp = { version = "=0.4.3", features = ["server", "websocket"] }
