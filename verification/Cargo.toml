[package]
name = "autocorr"
version = "0.1.0"
edition = "2021"
publish = false

[dependencies]
anyhow = "*"
chrono = "*"
dotenv = "*"
env_logger = "*"
log = "*"
tokio = { version = "*", default-features = false, features = ["macros", "rt-multi-thread", "time"] }
