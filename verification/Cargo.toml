[package]
name = "rag_core"
version = "0.1.0"
edition = "2021"
publish = false

[dependencies]
twox-hash = "2"
serde = { version = "1", features = ["derive"] }
serde_json = "1"
mongodb = "3"
actix-web = "4"
actix-cors = "0.7"
reqwest = { version = "0.12", default-features = false, features = ["json", "stream", "rustls-tls"] }
futures = "0.3"
rayon = "1"
tokenizers = "*"
candle-core = "*"
candle-nn = "*"
candle-transformers = "*"
