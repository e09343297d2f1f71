[package]
name = "discord_bot"
version = "0.1.0"
edition = "2021"
publish = false

[dependencies]
url = "2"
xml-rs = "0.8"
circular-queue = "0.2"
rand = "0.8"
serenity = "0.12"
poise = "0.6"
reqwest = { version = "0.11", default-features = false, features = ["rustls-tls"] }
tokio = { version = "1", features = ["macros", "rt-multi-thread"] }
log = "0.4"
env_logger = "0.11"
rawr = "0.1"
