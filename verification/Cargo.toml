[package]
name = "household_ledger"
version = "0.1.0"
edition = "2021"
publish = false

[dependencies]
chrono = { version = "0.4", default-features = false, features = ["std"] }
printpdf = { version = "0.3", default-features = false }

[dev-dependencies]
regex = "1"
