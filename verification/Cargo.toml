[package]
name = "alma_client"
version = "0.1.0"
edition = "2021"
publish = false

[dependencies]
anyhow = "*"
dotenv = "*"
env_logger = "*"
json = "*"
log = "*"
rand = "*"
reqwest = { version = "*", default-features = false }
structopt = "*"
tokio = { version = "*", features = ["macros", "rt-multi-thread", "time"] }
