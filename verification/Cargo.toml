[package]
name = "mcp-bookmark"
version = "0.5.1"
edition = "2021"
publish = false

[dependencies]
url = "=2.5.8"
regex = "=1.13.1"
serde = { version = "=1.0.229", features = ["derive"] }
serde_json = "=1.0.154"
tokio = { version = "=1.54.1", features = ["full"] }
rmcp = { version = "=3.8.0", features = ["server", "transport-io", "macros"] }
tantivy = "=0.24.2"
lindera = { version = "=0.45.0", features = ["ipadic"] }
lindera-tantivy = { version = "=0.45.0", features = ["ipadic"] }
dirs = "=7.0.0"
anyhow = "=1.0.104"
tracing = "=0.1.44"
tracing-subscriber = { version = "=0.3.23", features = ["env-filter"] }
tracing-appender = "=0.2.5"
chrono = "=0.4.45"
async-trait = "=0.1.92"
reqwest = { version = "=0.12.28", default-features = false, features = ["rustls-tls"] }
scraper = "=0.29.0"
sha2 = "*"
pdf-extract = "*"
tempfile = "=3.27.0"
