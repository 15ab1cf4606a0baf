[package]
name = "soil_ingest"
version = "0.1.0"
edition = "2021"
publish = false

[dependencies]
uuid = { version = "*", features = ["v4"] }
rumqttc = "*"
reqwest = { version = "*", default-features = false }
tokio = { version = "*", features = ["full"] }
log = "*"
env_logger = "*"
dotenv = "*"
clap = { version = "*", features = ["derive"] }
chrono = "*"
influxdb = "*"
serde = "*"
serde_json = "*"
