[package]
name = "odra_cli"
version = "0.1.0"
edition = "2021"
publish = false

[dependencies]
casper-types = "=7.0.0"
hex = "=0.4.3"
clap = { version = "=4.6.7", features = ["string"] }
serde = "=1.0.229"
serde_derive = "=1.0.229"
toml = "=1.1.6"
chrono = "=0.4.45"
project-root = "=0.2.2"
