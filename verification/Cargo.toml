[package]
name = "asset_storage"
version = "0.1.0"
edition = "2021"
publish = false

[dependencies]
candid = "=0.10.39"
ic-cdk = "=0.20.3"
ic-cdk-macros = "=0.20.3"
serde = "=1.0.229"
