[package]
name = "quickview"
version = "0.1.0"
edition = "2021"
publish = false

[dependencies]
anyhow = "1"
async-channel = "2"
blake3 = "1"
clap = { version = "4", features = ["derive"] }
csv = "1"
directories = "*"
glib = "*"
glycin = "*"
gtk4 = "*"
gtk4-layer-shell = "*"
libadwaita = "*"
serde = { version = "1", features = ["derive"] }
serde_json = "1"
tempfile = "3"
thiserror = "*"
toml = "*"
tracing = "0.1"
tracing-subscriber = { version = "0.3", features = ["env-filter"] }
