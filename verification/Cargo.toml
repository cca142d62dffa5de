[package]
name = "track_mapper"
version = "0.1.0"
edition = "2021"
publish = false

[dependencies]
url = "=2.5.8"
serde = { version = "=1.0.229", features = ["derive"] }
config = { version = "=0.11.0", default-features = false, features = ["toml"] }
delta_e = "=0.2.1"
lab = "=0.7.2"
image = { version = "=0.23.14", default-features = false, features = ["jpeg", "png"] }
tera = { version = "=1.20.1", default-features = false }
futures = "=0.3.34"
tokio = { version = "=0.2.25", features = ["macros", "rt-threaded"] }
reqwest = "=0.10.10"
telegram-bot = "=0.8.0"
