[package]
name = "revql"
version = "0.1.0"
edition = "2021"
publish = false

[dependencies]
clap = { version = "=4.5.61", features = ["derive"] }
colored = "=3.0.0"
graphql-introspection-query = "*"
reqwest = { version = "=0.12.28", default-features = false, features = ["blocking", "json", "rustls-tls"] }
serde_json = "1"
thiserror = "2"
