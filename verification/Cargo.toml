[package]
name = "fileserve"
version = "0.1.0"
edition = "2021"
publish = false

[dependencies]
actix-multipart = "=0.8.5"
actix-web = "=4.15.0"
futures = "=0.3.34"
hmac = "=0.12.1"
jwt = "=0.16.0"
mime_guess = "=2.0.5"
serde = { version = "=1.0.229", features = ["derive"] }
serde_json = "=1.0.151"
sha2 = "=0.10.9"
