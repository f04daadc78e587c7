[package]
name = "spotter"
version = "0.1.0"
edition = "2021"
publish = false

[dependencies]
hex = "=0.4.3"
adsb_deku = "=0.7.1"
rsadsb_common = "=0.7.0"
axum = "=0.8.9"
clap = { version = "=4.6.7", features = ["derive"] }
serde = { version = "=1.0.229", features = ["derive"] }
tokio = { version = "=1.53.2", features = ["net", "io-util", "rt-multi-thread", "macros", "sync"] }
tracing = "=0.1.44"
tracing-subscriber = { version = "=0.3.23", features = ["env-filter"] }
