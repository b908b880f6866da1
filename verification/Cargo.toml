[package]
name = "aggregate_falcon"
version = "0.1.0"
edition = "2021"
publish = false

[dependencies]
sha3 = "=0.10.9"
serde = { version = "=1.0.229", features = ["derive"] }

[dev-dependencies]
pqcrypto-falcon = "*"
pqcrypto-traits = "*"
