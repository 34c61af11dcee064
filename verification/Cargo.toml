[package]
name = "st"
version = "0.1.0"
edition = "2021"
publish = false

[dependencies]
clap = { version = "=4.6.7", features = ["derive"] }
git2 = "=0.21.0"
inquire = { version = "=0.9.4", features = ["editor"] }
nu-ansi-term = "=0.50.3"
octocrab = "=0.47.1"
tokio = { version = "=1.53.2", features = ["rt-multi-thread", "macros"] }
