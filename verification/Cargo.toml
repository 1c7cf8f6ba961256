[package]
name = "cards_core"
version = "0.1.0"
edition = "2021"
publish = false

[dependencies]
printpdf = { version = "=0.8.2", features = ["png", "jpeg"] }
thiserror = "=2.0.21"
clap = { version = "=4.6.7", features = ["derive"] }
env_logger = "=0.11.11"
log = "=0.4.35"
zip = { version = "=9.2.2", default-features = false, features = ["deflate"] }
