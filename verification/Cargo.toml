[package]
name = "address_store"
version = "0.1.0"
edition = "2021"
publish = false

[dependencies]
candid = "=0.10.39"
ic-cdk = "=0.13.6"
ic-stable-structures = "=0.6.9"
serde = { version = "=1.0.229", features = ["derive"] }
