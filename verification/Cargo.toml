[package]
name = "blocksmith"
version = "0.1.0"
edition = "2021"
publish = false

[dependencies]
sha2 = "=0.11.0"
ripemd = "=0.2.0"
bs58 = "=0.5.1"
secp256k1 = { version = "=0.33.1", features = ["rand"] }
serde = { version = "*", features = ["derive"] }
serde_json = "=1.0.151"
actix-web = "*"
actix-cors = "*"
tokio = { version = "*", features = ["macros", "rt-multi-thread"] }
tracing = "*"
tracing-subscriber = "*"
