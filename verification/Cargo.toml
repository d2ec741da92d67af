[package]
name = "uliab"
version = "0.1.0"
edition = "2021"
publish = false

[dependencies]
quick-xml = "=0.37.5"
serde = { version = "=1.0.229", features = ["derive"] }
serde_json = "=1.0.154"
sha2 = "0.11"
ureq = { version = "=3.5.1", default-features = false, features = ["rustls"] }
zip = { version = "=2.6.1", default-features = false, features = ["deflate"] }
