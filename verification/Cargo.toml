[package]
name = "abstraktor"
version = "1.0.0"
edition = "2021"
publish = false

[dependencies]
anyhow = "1"
clap = { version = "4", features = ["derive"] }
cliclack = "*"
console = "*"
regex = "1"
serde = { version = "1", features = ["derive"] }
serde_json = "1"
xshell = "*"
