[package]
name = "duflow-core"
version = "0.1.0"
edition = "2021"
publish = false

[dependencies]
kdl = "6"
serde = { version = "1", features = ["derive"] }
serde_json = "1"
thiserror = "2"
anyhow = "1"
clap = { version = "4", features = ["derive"] }
clap_complete = { version = "4", features = ["unstable-dynamic"] }
globset = "0.4"
