[package]
name = "steamer"
version = "0.1.0"
edition = "2021"
publish = false

[dependencies]
miniz_oxide = "*"
rand = "*"
serde = { version = "*", features = ["derive"] }
serde_json = "*"
keyvalues-serde = "*"
directories = "*"
log = "*"
pretty_env_logger = "*"
reqwest = { version = "*", default-features = false, features = ["blocking", "rustls-tls"] }
