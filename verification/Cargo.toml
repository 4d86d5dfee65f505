[package]
name = "tandem"
version = "0.1.0"
edition = "2021"
publish = false

[dependencies]
anyhow = "=1.0.104"
async-trait = "=0.1.92"
axum = "=0.8.9"
clap = { version = "=4.6.7", features = ["derive", "env"] }
dunce = "=1.0.5"
futures = "=0.3.34"
jj-lib = "=0.38.0"
# Not used directly. The newest release needs a newer compiler than jj-lib does.
kstring = "=2.0.2"
libc = "=0.2.191"
pollster = "=1.0.1"
prost = "=0.14.4"
reqwest = { version = "=0.13.5", default-features = false, features = ["blocking", "json"] }
serde = { version = "=1.0.229", features = ["derive"] }
serde_json = { version = "=1.0.154", features = ["preserve_order"] }
tokio = { version = "=1.54.1", features = ["full"] }
tokio-stream = { version = "=0.1.19", features = ["sync"] }
tracing = "=0.1.44"
