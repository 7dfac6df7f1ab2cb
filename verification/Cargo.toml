[package]
name = "keuangan_bot"
version = "0.1.0"
edition = "2021"
publish = false

[dependencies]
anyhow = "=1.0.104"
axum = "=0.8.9"
base64 = "=0.22.1"
chrono = { version = "=0.4.45", features = ["serde"] }
chrono-tz = "=0.10.4"
dotenvy = "=0.15.7"
dptree = "=0.5.1"
hmac = "=0.12.1"
serde = { version = "=1.0.229", features = ["derive"] }
sha2 = "=0.10.8"
sqlx = { version = "=0.8.6", default-features = false, features = ["runtime-tokio", "postgres", "chrono", "migrate", "derive"] }
# Not used directly: teloxide-core depends on takecell, whose 0.1.2 raised
# its minimum supported rustc; this line holds it at 0.1.1.
takecell = "=0.1.1"
teloxide = { version = "=0.17.0", default-features = false, features = ["macros", "ctrlc_handler", "rustls"] }
tokio = { version = "=1.54.1", features = ["macros", "rt-multi-thread", "net"] }
tracing = "=0.1.44"
tracing-subscriber = { version = "=0.3.23", features = ["env-filter"] }
