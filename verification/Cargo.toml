[package]
name = "veil"
version = "0.1.0"
edition = "2021"
publish = false

[dependencies]
chacha20poly1305 = "=0.10.1"
x25519-dalek = { version = "=2.0.1", features = ["static_secrets"] }
hkdf = "=0.12.4"
sha2 = "=0.10.9"
hex = "=0.4.3"
rand = "=0.8.8"
serde = { version = "=1.0.229", features = ["derive"] }
serde_json = "=1.0.154"
tokio = { version = "=1.54.1", features = ["full"] }
toml = "=0.8.23"
tracing = "=0.1.44"
tracing-subscriber = { version = "=0.3.23", features = ["env-filter"] }
