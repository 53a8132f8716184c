[package]
name = "mastermind"
version = "0.1.0"
edition = "2021"
publish = false

[dependencies]
comfy-table = "*"
clap = { version = "*", features = ["derive"] }
dialoguer = "*"
dirs = "*"
dotenv = "*"
reqwest = { version = "*", default-features = false, features = ["json"] }
serde = { version = "*", features = ["derive"] }
serde_json = "*"
tokio = { version = "*", features = ["rt-multi-thread", "macros"] }
toml_edit = "*"
