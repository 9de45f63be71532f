[package]
name = "flounder"
version = "0.1.0"
edition = "2021"
publish = false

[dependencies]
url = "=2.5.8"
serde = { version = "=1.0.229", features = ["derive"] }
toml = "=0.8.23"
argh = "=0.1.19"
anyhow = "=1.0.104"
bcrypt = "=0.19.3"
sanitize-filename = "=0.6.0"
chrono = "=0.4.45"
askama = "=0.16.1"
tide = "=0.16.0"
async-std = { version = "=1.13.2", features = ["attributes"] }
futures = "=0.3.34"
multer = "=3.1.0"
sqlx = { version = "=0.9.0", default-features = false, features = ["sqlite", "runtime-async-std", "derive"] }
native-tls = "0.2"
