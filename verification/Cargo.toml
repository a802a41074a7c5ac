[package]
name = "fuel_storage_model"
version = "0.1.0"
edition = "2021"
publish = false

[dependencies]
fuel-merkle = "*"
serde = { version = "*", features = ["derive"] }
