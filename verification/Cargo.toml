[package]
name = "pierre"
version = "0.1.0"
edition = "2021"
publish = false

[dependencies]
anyhow = "=1.0.104"
axum = "=0.8.9"
edgestore = "=1.5.0"
edgestore-repl = "=1.5.0"
edgestore-tier = "=1.5.0"
edgestore-tokio = { version = "=1.5.0", features = ["tier"] }
env_logger = "=0.11.11"
hex = "=0.4.3"
hyperloglogplus = "=0.4.1"
jiff = "=0.2.39"
log = "=0.4.35"
prost = "=0.14.4"
rand = "=0.9.5"
reqwest = { version = "=0.12.28", default-features = false, features = ["json"] }
rmcp = { version = "=2.2.0", features = ["server", "macros", "transport-streamable-http-server"] }
schemars = "=1.2.3"
serde = { version = "=1.0.229", features = ["derive"] }
serde_json = { version = "=1.0.154", features = ["float_roundtrip"] }
sketches-ddsketch = { version = "=0.3.2", features = ["use_serde"] }
snap = "=1.1.2"
tokio = { version = "=1.54.1", features = ["full"] }
toml = "=0.9.12"
tonic = "=0.14.9"
tonic-prost = "=0.14.9"
tower-http = { version = "=0.6.11", features = ["catch-panic"] }
