[package]
name = "foxtime"
version = "0.1.0"
edition = "2021"
publish = false

[dependencies]
actix-web = { version = "4", default-features = false, features = ["macros", "http2", "compress-gzip", "rustls-0_23"] }
anyhow = "1"
base64 = "0.22"
clap = { version = "4", features = ["derive"] }
mime = "0.3"
reqwest = { version = "0.12", default-features = false, features = ["rustls-tls"] }
rustls = "0.23"
rustls-pemfile = "2"
sha256 = "1"
tokio = { version = "1", features = ["macros", "rt-multi-thread"] }
wtransport = "0.6"
