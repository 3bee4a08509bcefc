[package]
name = "d3l"
version = "0.1.0"
edition = "2021"
publish = false

[dependencies]
openai = "=1.1.1"
pest = "=2.9.6"
pest_derive = "=2.9.6"
tokio = { version = "=1.54.1", features = ["macros", "rt-multi-thread"] }
reqwest = { version = "=0.11.27", default-features = false, features = ["json", "rustls-tls"] }
serde = { version = "=1.0.229", features = ["derive"] }
