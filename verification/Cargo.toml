[package]
name = "gqlfreez"
version = "0.1.0"
edition = "2021"
publish = false

[dependencies]
apollo-parser = "0.8"
clap = { version = "4", features = ["derive"] }
dotenvy = "0.15"
futures-util = "0.3"
ignore = "0.4"
reqwest = { version = "0.12", default-features = false, features = ["json", "stream", "gzip", "rustls-tls"] }
serde = { version = "1", features = ["derive"] }
serde_json = "1"
serde_yaml_ng = "0.10"
thiserror = "2"
tokio = { version = "1", features = ["macros", "rt-multi-thread", "sync", "time"] }
toml = "0.8"
