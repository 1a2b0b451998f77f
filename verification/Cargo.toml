[package]
name = "cairo_proving_server"
version = "0.1.0"
edition = "2021"
publish = false

[dependencies]
zip = "*"
base64 = "0.13"
cairo-vm = "*"
axum = { version = "*", features = ["multipart"] }
tokio = { version = "*", features = ["full"] }
tower = { version = "*", features = ["limit"] }
tower-http = { version = "*", features = ["cors"] }
log = "*"
fern = "*"
anyhow = "*"
serde = { version = "*", features = ["derive"] }
