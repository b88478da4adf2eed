[package]
name = "alertbot"
version = "0.1.0"
edition = "2021"
publish = false

[dependencies]
time = "*"
serenity = "*"
tokio = { version = "*", features = ["macros", "rt-multi-thread"] }
dotenv = "*"
