[package]
name = "tx_fields"
version = "0.1.0"
edition = "2021"
publish = false

[dependencies]
chrono = { version = "0.4", default-features = false, features = ["std"] }
crossterm = { version = "0.25" }
rusqlite = { version = "0.29" }
thousands = { version = "0.2" }
tui = { version = "0.19" }
