[package]
name = "factland"
version = "0.1.0"
edition = "2021"
publish = false

[dependencies]
candid = "=0.10.37"
hex = "=0.4.3"
sha2 = "=0.10.9"
ic-cdk = "=0.20.3"
serde = "*"
