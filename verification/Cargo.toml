[package]
name = "gitjournal"
version = "0.1.0"
edition = "2021"
publish = false

[dependencies]
itertools = "=0.15.0"
anyhow = "=1.0.104"
calamine = "=0.36.1"
clap = { version = "=4.6.7", features = ["derive"] }
log = "=0.4.34"
octocrab = "=0.41.2"
simple_logger = "=5.2.0"
tokio = { version = "=1.53.2", features = ["macros", "rt-multi-thread"] }
