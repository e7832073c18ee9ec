[package]
name = "wikidata_index"
version = "0.1.0"
edition = "2021"
publish = false

[dependencies]
charabia = { version = "0.6", default-features = false, features = ["chinese"] }
tantivy = { version = "0.18", features = ["brotli-compression"] }
serde = { version = "1", features = ["derive"] }
serde_json = "1"
serde_yaml = "0.9"
csv = "1"
indicatif = "0.16"
simd-json = "0.6"
