[package]
name = "atrader"
version = "0.1.0"
edition = "2021"
publish = false

[dependencies]
anyhow = "=1.0.104"
argon2 = { version = "=0.5.3", features = ["std"] }
async-trait = "=0.1.92"
axum = "=0.8.9"
chrono = { version = "=0.4.45", features = ["serde"] }
chrono-tz = "=0.10.4"
encoding_rs = "=0.8.44"
futures-util = "=0.3.34"
rand = "=0.8.8"
reqwest = { version = "=0.12.28", default-features = false, features = ["json", "rustls-tls-no-provider"] }
rpassword = "=7.5.4"
rust-embed = "=8.13.0"
rust_decimal = { version = "=1.43.0", features = ["serde-with-arbitrary-precision"] }
rustls = { version = "=0.23.46", default-features = false, features = ["ring", "std"] }
schemars = { version = "=1.2.3", features = ["chrono04", "rust_decimal1"] }
serde = { version = "=1.0.229", features = ["derive"] }
serde_json = { version = "=1.0.154", features = ["arbitrary_precision"] }
sha2 = "=0.10.9"
sqlx = { version = "=0.8.6", default-features = false, features = ["runtime-tokio", "postgres", "macros", "migrate", "chrono", "rust_decimal"] }
thiserror = "=2.0.21"
tokio = { version = "=1.54.1", features = ["full"] }
tokio-tungstenite = { version = "=0.30.0", features = ["rustls-tls-webpki-roots"] }
toml = "=0.8.23"
totp-rs = { version = "=5.7.2", features = ["otpauth", "gen_secret"] }
tracing = "=0.1.44"
tracing-subscriber = { version = "=0.3.23", features = ["env-filter"] }
zip = { version = "=2.6.1", default-features = false, features = ["deflate"] }
zyris = { version = "=0.3.0", features = ["enroll"] }
zyris-attacca = "=0.3.0"
