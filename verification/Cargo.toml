[package]
name = "yarn-berry-fetcher"
version = "0.1.0"
edition = "2021"
publish = false

[dependencies]
anyhow = "=1.0.104"
async-process = "=2.5.0"
async-tempfile = "=0.8.0"
axfive-libzip = "=0.2.5"
chrono = "=0.4.45"
deko = "=0.6.0"
dostime = { version = "=2.0.1", features = ["chrono-1"] }
form_urlencoded = "=1.2.2"
futures = "0.3"
hex = "=0.4.3"
reqwest = { version = "=0.12.28", default-features = false, features = ["rustls-tls", "http2", "charset"] }
semver = "=1.0.28"
serde = { version = "=1.0.229", features = ["derive"] }
serde_json = "=1.0.154"
serde_yml = "=0.0.12"
sha2 = "=0.10.9"
shellexpand = "=3.1.2"
tar = "=0.4.46"
tempfile = "=3.27.0"
tokio = { version = "=1.54.1", features = ["full"] }
tokio-retry2 = { version = "=0.9.1", features = ["jitter"] }
tokio-util = { version = "=0.7.20", features = ["io", "io-util"] }
yarn-lock-parser = "=0.14.0"
