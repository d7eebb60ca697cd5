[package]
name = "spend_authorization"
version = "0.1.0"
edition = "2021"
publish = false

[dependencies]
anyhow = "1"
hex = "0.4"
rand = "0.8"
snarkvm-algorithms = "0.7.5"
snarkvm-curves = "0.7.5"
snarkvm-fields = "0.7.5"
snarkvm-utilities = "0.7.5"
