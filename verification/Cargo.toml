[package]
name = "pawnbot"
version = "0.1.0"
edition = "2021"
publish = false

[dependencies]
dotenv = "*"
egg-mode = "*"
reqwest = "*"
serde = { version = "*", features = ["derive"] }
serde_json = "*"
tokio = { version = "*", features = ["macros", "rt", "time"] }
