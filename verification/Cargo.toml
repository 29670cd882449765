[package]
name = "ssmt4_core"
version = "0.1.0"
edition = "2021"
publish = false

[dependencies]
zip = "*"
sevenz-rust = "*"
encoding_rs = "*"
serde = { version = "*", features = ["derive"] }
serde_json = "*"
notify = "*"
sysinfo = "*"
tokio = { version = "*", features = ["time"] }
reqwest = { version = "*", default-features = false, features = ["json", "rustls-tls"] }
