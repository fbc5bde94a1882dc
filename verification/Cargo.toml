[package]
name = "peach"
version = "0.3.0"
edition = "2021"
publish = false

[dependencies]
anyhow = "=1.0.104"
chrono = "=0.4.45"
crc32fast = "=1.5.4"
directories = "=6.0.0"
duckdb = { version = "=1.20000.1", default-features = false }
evtx = "=0.15.1"
jiff = "=0.2.39"
lz4_flex = "=0.14.0"
macos-unifiedlogs = "=0.7.0"
regex = "=1.13.1"
rusqlite = { version = "=0.41.1", default-features = false }
serde = { version = "=1.0.229", features = ["derive"] }
serde_json = { version = "=1.0.154", features = ["preserve_order"] }
sha2 = "=0.11.1"
thiserror = "=2.0.21"
toml = "=1.1.8"
toml_edit = "=0.25.17"
ureq = { version = "=3.5.1", features = ["json"] }
uuid = { version = "=1.29.0", features = ["v4"] }
walkdir = "=2.5.0"
zip = "=9.2.2"
