[package]
name = "rust_backend"
version = "0.1.0"
edition = "2021"
publish = false

[dependencies]
actix-web = "*"
bcrypt = "=0.19.3"
chrono = "=0.4.45"
dotenv = "*"
futures-util = "*"
jsonwebtoken = { version = "=11.1.0", features = ["rust_crypto"] }
regex = "=1.13.1"
serde = { version = "*", features = ["derive"] }
serde_json = "*"
sqlx = { version = "*", features = ["runtime-tokio", "postgres", "migrate"] }
uuid = { version = "=1.27.0", features = ["v4"] }
validator = { version = "*", features = ["derive"] }
