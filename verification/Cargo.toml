[package]
name = "temps"
version = "0.1.0"
edition = "2021"
publish = false

[dependencies]
anyhow = "*"
clap = { version = "*", features = ["derive", "env"] }
clap_complete = "*"
csv = "*"
serde = { version = "*", features = ["derive"] }
time = { version = "*", features = ["formatting", "parsing", "macros", "local-offset", "serde-well-known"] }
