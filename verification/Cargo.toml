[package]
name = "moonshine"
version = "3.0.15"
edition = "2021"
publish = false

[dependencies]
blake3 = "=1.8.7"
hex = "=0.4.3"
rusqlite = { version = "=0.37.0", features = ["bundled-sqlcipher-vendored-openssl"] }
darkfi-serial = { version = "=0.5.1", features = ["pasta_curves"] }
pasta_curves = "=0.5.2"
rand_core = { version = "=0.6.4", features = ["getrandom"] }
serde = { version = "1", features = ["derive"] }
toml = "*"
clap = { version = "4", features = ["derive"] }
tokio = { version = "1", features = ["rt-multi-thread", "macros", "sync"] }
tracing = "0.1"
