[package]
name = "eventsourcingdb-es"
version = "0.1.0"
edition = "2021"
publish = false

[dependencies]
chrono = { version = "*", features = ["serde"] }
cqrs-es = "*"
dashmap = "*"
eventsourcingdb = "*"
futures = "*"
regex = "*"
serde = { version = "*", features = ["derive"] }
serde_json = "*"
thiserror = "*"
tokio = { version = "*", features = ["rt", "macros"] }
