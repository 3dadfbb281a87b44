[package]
name = "pdfbuilder"
version = "0.1.0"
edition = "2021"
publish = false

[dependencies]
pulldown-cmark = "=0.13.4"
scraper = "=0.27.0"
syntect = { version = "=5.3.0", default-features = false, features = ["default-syntaxes", "default-themes", "html", "regex-fancy"] }
clap = { version = "=4.6.7", features = ["derive"] }
serde = { version = "=1.0.229", features = ["derive"] }
serde_yaml = "=0.9.34"
thiserror = "=2.0.21"
tokio = { version = "=1.53.2", features = ["rt-multi-thread", "macros", "net", "sync"] }
axum = "=0.8.9"
tower-http = { version = "=0.7.1", features = ["fs"] }
headless_chrome = "=0.9.0"
notify = "=8.2.0"
clearscreen = "=5.0.0"
colored = "=3.1.1"
indicatif = "=0.18.6"
