[package]
name = "language_server"
version = "0.1.0"
edition = "2021"
publish = false

[dependencies]
anyhow = "1"
log = "0.4"
lsp-server = "0.7"
lsp-types = "0.95"
serde_json = "1"
simple-logging = "2"
tracing = "0.1"
