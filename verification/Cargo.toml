[package]
name = "axe"
version = "0.1.0"
edition = "2021"
publish = false

[dependencies]
sha2 = "=0.11.0"
directories = "=6.0.0"
target-lexicon = "=0.13.5"
clap = { version = "=4.6.7", features = ["derive"] }
serde = { version = "*", features = ["derive"] }
toml = "*"
reqwest = { version = "=0.12.28", default-features = false, features = ["json", "rustls-tls", "stream"] }
tokio = { version = "=1.53.2", features = ["macros", "rt-multi-thread"] }
futures-util = "*"
indicatif = "=0.18.6"
bytes = "*"
