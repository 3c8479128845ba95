[package]
name = "npurag"
version = "0.1.0"
edition = "2021"
publish = false

[dependencies]
anyhow = "1"
blake3 = "1"
clap = { version = "4", features = ["derive"] }
directories = "6"
globset = "0.4"
ignore = "0.4"
indicatif = "0.17"
notify = "8"
rusqlite = { version = "0.32", features = ["bundled"] }
serde = { version = "1", features = ["derive"] }
serde_json = "1"
tiny_http = "0.12"
toml = "0.8"
ureq = { version = "3", features = ["json"] }

[dev-dependencies]
tempfile = "3"
