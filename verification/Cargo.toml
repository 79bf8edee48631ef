[package]
name = "glue"
version = "0.1.0"
edition = "2021"
publish = false

[dependencies]
anyhow = "1"
binrw = "*"
clap = { version = "4", features = ["derive"] }
prettytable = "*"
thiserror = "*"
