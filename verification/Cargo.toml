[package]
name = "git_multi_glance"
version = "0.1.0"
edition = "2021"
publish = false

[dependencies]
anyhow = "1"
clap = { version = "4", features = ["derive"] }
owo-colors = "4"
tokio = { version = "1", features = ["macros", "rt-multi-thread", "process", "sync"] }
