[package]
name = "repo_metrics"
version = "0.1.0"
edition = "2021"
publish = false

[dependencies]
itertools = "*"
git2 = { version = "*", default-features = false }
clap = { version = "*", features = ["derive"] }
thiserror = "*"
