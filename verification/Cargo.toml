[package]
name = "hangman"
version = "0.1.0"
edition = "2021"
publish = false

[dependencies]
anyhow = "=1.0.104"
nanorand = "=0.7.0"
quinn = "=0.10.2"
rcgen = "=0.11.3"
rustls = { version = "=0.21.12", features = ["dangerous_configuration"] }
tokio = { version = "=1.53.2", features = ["rt-multi-thread", "macros", "time"] }
