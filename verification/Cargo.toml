[package]
name = "chumtree"
version = "0.1.0"
edition = "2021"
publish = false

[dependencies]
chrono = "0.4"
globset = "0.4"
seahash = "4"
serde = { version = "1", features = ["derive"] }
serde_json = "1"
unicode-normalization = "0.1"
