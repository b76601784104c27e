[package]
name = "bookmarks"
version = "0.1.0"
edition = "2021"
publish = false

[dependencies]
actix-files = "0.6"
actix-web = { version = "4", default-features = false, features = ["macros"] }
chrono = { version = "0.4", default-features = false, features = ["clock", "std", "serde"] }
dotenv = "0.15"
env_logger = { version = "0.10", default-features = false }
jsonwebtoken = { version = "9", default-features = false }
log = "0.4"
regex = "1"
reqwest = { version = "0.11", default-features = false, features = ["rustls-tls"] }
serde = { version = "1", features = ["derive"] }
serde_json = "1"
sqlx = { version = "0.7", default-features = false, features = ["sqlite", "runtime-tokio", "chrono", "migrate"] }
tera = { version = "1", default-features = false }
time = "0.3"
tokio = { version = "1", features = ["macros", "rt-multi-thread"] }
