[package]
name = "magiframe"
version = "0.1.0"
edition = "2021"
publish = false

[dependencies]
image = { version = "0.24", default-features = false, features = ["png"] }
edge-detection = "0.2"
axum = "0.7"
axum-extra = { version = "0.9", features = ["typed-header"] }
hyper = "1"
tokio = { version = "1", features = ["macros", "rt-multi-thread", "net"] }
reqwest = { version = "0.12", default-features = false, features = ["rustls-tls"] }
serde = { version = "1", features = ["derive"] }
serde_json = "1"
dotenv = "0.15"
rayon = "1"
