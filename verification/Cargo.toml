[package]
name = "arnis"
version = "0.1.0"
edition = "2021"
publish = false

[dependencies]
colored = "*"
fastanvil = "*"
fastnbt = "2"
fnv = "1"
indicatif = "*"
rand = "0.9"
rayon = "1"
reqwest = { version = "0.12", default-features = false, features = ["blocking", "json", "rustls-tls"] }
serde = { version = "1", features = ["derive"] }
serde_json = "1"
