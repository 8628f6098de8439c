[package]
name = "fsrs_lib"
version = "0.1.0"
edition = "2021"
publish = false

[dependencies]
pulldown-cmark = { version = "=0.11.3", default-features = false }
sha2 = "=0.10.9"
hex = "=0.4.3"
ansi_term = "=0.12.1"
chrono = { version = "=0.4.45", features = ["serde"] }
rs-fsrs = "=1.2.1"
rusqlite = { version = "=0.31.0", features = ["bundled"] }
serde = { version = "=1.0.229", features = ["derive"] }
serde_json = "=1.0.154"
toml = "=0.8.23"
uuid = { version = "=1.29.0", features = ["v4"] }
anyhow = "=1.0.104"
console = "=0.15.11"
dialoguer = "=0.11.0"
clap = { version = "=4.6.7", features = ["derive"] }
walkdir = "=2.5.0"
tracing-subscriber = "=0.3.23"
tantivy = "=0.27.0"
tantivy-jieba = "=0.21.0"
tokio = { version = "=1.54.1", features = ["rt-multi-thread"] }
async-openai = { version = "=0.43.0", features = ["chat-completion"] }
