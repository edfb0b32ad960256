[package]
name = "bitcoin_parser"
version = "0.1.0"
edition = "2021"
publish = false

[dependencies]
sha2 = "0.10"
chrono = "0.4"
rayon = "1"
serde_json = "1"
leveldb = "0.8"
db-key = "0.0.5"
