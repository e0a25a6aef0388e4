[package]
name = "bot_scythe"
version = "0.1.0"
edition = "2021"
publish = false

[dependencies]
chrono = "=0.4.45"
chrono-tz = "=0.8.6"
strsim = "=0.11.1"
rand = "=0.8.8"
serde = { version = "=1.0.229", features = ["derive"] }
serde_json = "=1.0.154"
poise = "=0.6.2"
serenity = "=0.12.5"
songbird = { version = "=0.5.0", features = ["builtin-queue"] }
redis = { version = "=0.25.5", default-features = false, features = ["tokio-comp"] }
reqwest = { version = "=0.12.28", default-features = false, features = ["rustls-tls"] }
tokio = { version = "=1.54.1", features = ["macros", "rt-multi-thread"] }
