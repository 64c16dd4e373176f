[package]
name = "netbox2netshot"
version = "0.1.0"
edition = "2021"
publish = false

[dependencies]
anyhow = "1"
clap = { version = "4", features = ["derive", "env"] }
flexi_logger = "*"
log = "0.4"
reqwest = { version = "0.11", default-features = false, features = ["blocking", "json", "native-tls"] }
serde = { version = "1", features = ["derive"] }
url = "2"
