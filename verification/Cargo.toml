[package]
name = "jocker"
version = "0.1.0"
edition = "2021"
publish = false

[dependencies]
hex = "0.4"
sha2 = "0.10"
snap = "1"
url = "2"
serde_json = "1"
argh = "*"
chrono = "0.4"
dotenvy = "0.15"
pueue-lib = "*"
rusqlite = { version = "*", features = ["bundled"] }
serde = { version = "1", features = ["derive"] }
serde_yml = "*"
tabled = "*"
thiserror = "*"
tokio = { version = "1", features = ["rt-multi-thread", "macros", "process", "time", "sync", "fs", "io-util"] }
