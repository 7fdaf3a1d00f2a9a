[package]
name = "ckan-meta-rs"
version = "0.1.0"
edition = "2021"
publish = false

[dependencies]
anyhow = "1"
clap = { version = "4", features = ["derive"] }
clap_complete = "4"
flate2 = "1"
rayon = "1"
serde = { version = "1", features = ["derive"] }
serde_json = "1"
tar = "0.4"
ureq = "2"
zip = { version = "2", default-features = false, features = ["deflate"] }
