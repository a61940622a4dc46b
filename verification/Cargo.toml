[package]
name = "mcpg-plugin-identity-mtls"
version = "0.1.0"
edition = "2021"
publish = false

[dependencies]
async-trait = "0.1"
metrics = "0.24"
serde = { version = "1", features = ["derive"] }
serde_json = "1"
thiserror = "2"
tracing = "0.1"
