[package]
name = "neomake"
version = "0.5.0"
edition = "2021"
publish = false

[dependencies]
fancy-regex = "*"
handlebars = "*"
serde_json = "*"
serde = { version = "*", features = ["derive"] }
serde_yaml = "*"
toml = "*"
ron = "*"
clap = "*"
clap_complete = "*"
notify = "*"
threadpool = "*"
schemars = "*"
crossterm = "*"
anyhow = "*"
thiserror = "*"
