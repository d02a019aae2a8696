[package]
name = "tomb"
version = "0.1.0"
edition = "2021"
publish = false

[dependencies]
pulldown-cmark = { version = "0.13", default-features = false }
chrono = "0.4"
rand = "*"
etcetera = "*"
glob = "0.3"
serde = { version = "1", features = ["derive"] }
toml = "*"
clap = { version = "4", features = ["derive"] }
thiserror = "2"
