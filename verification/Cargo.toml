[package]
name = "mdsync"
version = "0.1.0"
edition = "2021"
publish = false

[dependencies]
dotenv = "*"
regex = "*"
reqwest = { version = "*", default-features = false }
rustis = "*"
serde = { version = "*", features = ["derive"] }
serde_yaml = "*"
tokio = { version = "*", features = ["macros", "rt-multi-thread", "sync"] }
