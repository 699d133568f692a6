[package]
name = "jrnl"
version = "0.1.0"
edition = "2021"
publish = false

[dependencies]
chrono = "*"
clap = { version = "*", features = ["derive"] }
colored = "*"
comfy-table = "*"
inquire = { version = "*", features = ["date"] }
pager = "*"
parse_datetime = "*"
serde = { version = "*", features = ["derive"] }
shellexpand = "*"
stringmetrics = "*"
term_size = "*"
toml = "*"
