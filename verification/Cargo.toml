[package]
name = "scribe"
version = "1.0.0"
edition = "2021"
publish = false

[dependencies]
anyhow = "=1.0.104"
chrono = "=0.4.45"
clap = { version = "=4.6.7", features = ["derive"] }
csv = "=1.4.0"
gix = { version = "=0.90.0", default-features = false, features = ["sha1"] }
jmespath = "=0.5.0"
rayon = "=1.12.0"
rusqlite = { version = "=0.41.1", features = ["bundled", "chrono"] }
serde_json = "=1.0.154"
sha2 = "=0.10.9"

[dev-dependencies]
tempfile = "=3.27.0"
