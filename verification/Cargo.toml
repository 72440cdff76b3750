[package]
name = "kolibri"
version = "0.1.0"
edition = "2021"
publish = false

[dependencies]
regex = "*"
actix-web = "4"
actix-http = "*"
http = "*"
tokio = { version = "*", features = ["sync", "time", "macros", "rt-multi-thread"] }
clap = { version = "*", features = ["derive"] }
log = "*"
simple_logger = "*"

[dev-dependencies]
uuid = "*"
