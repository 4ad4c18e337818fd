[package]
name = "osc_ir"
version = "0.1.0"
edition = "2021"
publish = false

[dependencies]
anyhow = "*"
clap = { version = "*", features = ["derive"] }
serde_json = "*"
osc-types10 = "=0.1.0-alpha.2"
osc-types11 = "=0.1.0-alpha.2"

[dev-dependencies]
base64 = "*"
rmpv = "*"
