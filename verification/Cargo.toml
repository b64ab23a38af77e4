[package]
name = "rhizome"
version = "0.1.0"
edition = "2021"
publish = false

[dependencies]
sha2 = "*"
sha1 = "*"
hex = "*"
rand = "0.8"
rsa = "*"
serde = { version = "*", features = ["derive"] }
serde_json = "*"
serde_yaml = "*"
tokio = { version = "*", features = ["rt-multi-thread", "net", "time", "sync", "macros"] }
heed = "*"
fs2 = "*"
dotenvy = "*"
tracing = "*"
futures = "*"
thiserror = "*"
