[package]
name = "nameserver"
version = "0.1.0"
edition = "2021"
publish = false

[dependencies]
anyhow = "1"
ed25519 = { version = "1.5", features = ["alloc", "pem", "pkcs8"] }
ed25519-dalek = "1"
env_logger = "0.9"
log = "0.4"
paw = "1"
pem-rfc7468 = "0.6"
rand = "0.7"
serde = { version = "1", features = ["derive"] }
serde_yaml = "0.8"
structopt = { version = "0.3", features = ["paw"] }
tokio = { version = "1", features = ["macros", "net", "rt-multi-thread"] }

[dev-dependencies]
nom = "7"
