[package]
name = "microkitchen"
version = "0.1.0"
edition = "2021"
publish = false

[dependencies]
anyhow = "1"
clap = { version = "4", features = ["derive", "env"] }
getrandom = "*"
glob = "0.3"
hex = "0.4"
hickory-proto = "*"
indicatif = "*"
ipnet = "2"
libc = "0.2"
owo-colors = "4"
serde = { version = "1", features = ["derive"] }
serde_json = "1"
sha2 = "*"
subtle = "2"
tar = "0.4"
tempfile = "3"
thiserror = "2"
tokio = { version = "1", features = ["full"] }
tokio-util = { version = "0.7", features = ["rt"] }
toml = "*"
toml_edit = "*"
tracing = "0.1"
tracing-subscriber = { version = "0.3", features = ["env-filter"] }
walkdir = "2"
