[package]
name = "subnet_garden"
version = "0.1.0"
edition = "2021"
publish = false

[dependencies]
cidr = "*"
clap = { version = "4", features = ["derive"] }
exitcode = "*"
serde_json = "*"
