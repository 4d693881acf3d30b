[package]
name = "blackbook_ledger"
version = "0.1.0"
edition = "2021"
publish = false

[dependencies]
serde = { version = "=1.0.229", features = ["derive"] }
serde_json = "=1.0.151"
chrono = "=0.4.45"
roxmltree = "=0.21.1"
reqwest = { version = "=0.13.5", default-features = false, features = ["json", "query"] }
